//! An ordered collection with one entry for each path.
//!
//! Entries keep the order in which their paths first arrived. Inserting under
//! a path that is already held, in whatever spelling, replaces that entry's
//! value where it stands.

use vstd::prelude::*;
use vstd::utf8::encode_utf8;
use crate::path::{components, components_of, contents, same_components, same_path};

verus! {

/// A path as it was first spelled, and what is held for it.
pub struct Entry<V> {
    pub path: String,
    pub value: V,
}

/// Each entry as its path's text and its value.
pub open spec fn pairs<V>(entries: Seq<Entry<V>>) -> Seq<(Seq<char>, V)> {
    Seq::new(entries.len(), |i: int| (entries[i].path@, entries[i].value))
}

/// Whether an entry's path and `path` are the same path.
pub open spec fn names<V>(entry: (Seq<char>, V), path: Seq<char>) -> bool {
    same_path(encode_utf8(entry.0), encode_utf8(path))
}

/// Whether no two entries have the same path.
pub open spec fn distinct<V>(entries: Seq<(Seq<char>, V)>) -> bool {
    forall|i: int, j: int|
        0 <= i < j < entries.len() ==> !names(#[trigger] entries[i], (#[trigger] entries[j]).0)
}

/// Whether some entry has the path.
pub open spec fn holds<V>(entries: Seq<(Seq<char>, V)>, path: Seq<char>) -> bool {
    exists|i: int| 0 <= i < entries.len() && names(#[trigger] entries[i], path)
}

/// Whether `i` is the place of the first entry that has the path.
pub open spec fn is_place<V>(entries: Seq<(Seq<char>, V)>, path: Seq<char>, i: int) -> bool {
    &&& 0 <= i < entries.len()
    &&& names(entries[i], path)
    &&& forall|j: int| 0 <= j < i ==> !names(#[trigger] entries[j], path)
}

/// The place of the first entry that has the path.
pub open spec fn place<V>(entries: Seq<(Seq<char>, V)>, path: Seq<char>) -> int {
    choose|i: int| is_place(entries, path, i)
}

/// The entries after `value` is inserted under `path`: the entry that has
/// the path gets the value and keeps its place and spelling; if there is none,
/// a new entry comes last.
pub open spec fn inserted<V>(entries: Seq<(Seq<char>, V)>, path: Seq<char>, value: V) -> Seq<
    (Seq<char>, V),
> {
    if holds(entries, path) {
        let i = place(entries, path);
        entries.update(i, (entries[i].0, value))
    } else {
        entries.push((path, value))
    }
}

/// The value held for the path, if any.
pub open spec fn value_at<V>(entries: Seq<(Seq<char>, V)>, path: Seq<char>) -> Option<V> {
    if holds(entries, path) {
        Some(entries[place(entries, path)].1)
    } else {
        None
    }
}

/// The number of entries that have the path.
pub open spec fn count<V>(entries: Seq<(Seq<char>, V)>, path: Seq<char>) -> nat
    decreases entries.len(),
{
    if entries.len() == 0 {
        0
    } else {
        count(entries.drop_last(), path) + if names(entries.last(), path) {
            1nat
        } else {
            0nat
        }
    }
}

/// At most one entry for each path, in the order in which the paths first
/// arrived.
pub struct Registry<V> {
    entries: Vec<Entry<V>>,
}

impl<V> View for Registry<V> {
    type V = Seq<(Seq<char>, V)>;

    closed spec fn view(&self) -> Seq<(Seq<char>, V)> {
        pairs(self.entries@)
    }
}

impl<V> Registry<V> {
    /// What holds of every registry: no two entries have the same path.
    #[verifier::type_invariant]
    pub open spec fn well_formed(&self) -> bool {
        distinct(self@)
    }

    /// A registry without entries.
    pub fn new() -> (registry: Self)
        ensures
            registry@ == Seq::<(Seq<char>, V)>::empty(),
    {
        let registry = Registry { entries: Vec::new() };
        assert(registry@ =~= Seq::<(Seq<char>, V)>::empty());
        registry
    }

    /// The number of entries.
    pub fn len(&self) -> (n: usize)
        ensures
            n == self@.len(),
            distinct(self@),
    {
        proof {
            use_type_invariant(self);
        }
        self.entries.len()
    }

    /// The place of the entry that has the path, if there is one.
    pub fn find(&self, path: &str) -> (found: Option<usize>)
        ensures
            distinct(self@),
            match found {
                Some(i) => is_place(self@, path@, i as int) && i == place(self@, path@),
                None => !holds(self@, path@),
            },
    {
        proof {
            use_type_invariant(self);
        }
        let wanted = components_of(path.as_bytes());
        let mut i: usize = 0;
        while i < self.entries.len()
            invariant
                i <= self.entries.len(),
                self@.len() == self.entries.len(),
                distinct(self@),
                contents(wanted@) == components(encode_utf8(path@)),
                forall|j: int| 0 <= j < i ==> !names(#[trigger] self@[j], path@),
            decreases self.entries.len() - i,
        {
            let held = components_of(self.entries[i].path.as_str().as_bytes());
            if same_components(&held, &wanted) {
                proof {
                    assert(names(self@[i as int], path@));
                    lemma_place_is_first(self@, path@, i as int);
                }
                return Some(i);
            }
            i += 1;
        }
        None
    }

    /// Gives up the entries, in order.
    pub fn into_entries(self) -> (entries: Vec<Entry<V>>)
        ensures
            pairs(entries@) == self@,
            distinct(self@),
    {
        proof {
            use_type_invariant(&self);
        }
        self.entries
    }

    /// Holds `value` for `path` and hands back what was held for it before.
    pub fn insert(&mut self, path: &str, value: V) -> (previous: Option<V>)
        ensures
            final(self)@ == inserted(old(self)@, path@, value),
            previous == value_at(old(self)@, path@),
            distinct(final(self)@),
    {
        let found = self.find(path);
        let ghost before = self@;
        let mut entries: Vec<Entry<V>> = Vec::new();
        core::mem::swap(&mut self.entries, &mut entries);
        let previous = match found {
            Some(i) => {
                let mut held = value;
                core::mem::swap(&mut entries[i].value, &mut held);
                Some(held)
            },
            None => {
                entries.push(Entry { path: path.to_owned(), value });
                None
            },
        };
        proof {
            assert(pairs(entries@) =~= inserted(before, path@, value));
            lemma_inserted_distinct(before, path@, value);
        }
        self.entries = entries;
        previous
    }
}

/// Inserting keeps the paths distinct.
pub proof fn lemma_inserted_distinct<V>(entries: Seq<(Seq<char>, V)>, path: Seq<char>, value: V)
    requires
        distinct(entries),
    ensures
        distinct(inserted(entries, path, value)),
{
    let after = inserted(entries, path, value);
    if holds(entries, path) {
        let p = place(entries, path);
        lemma_place_of_held(entries, path);
        assert forall|i: int, j: int| 0 <= i < j < after.len() implies !names(
            #[trigger] after[i],
            (#[trigger] after[j]).0,
        ) by {
            assert(after[i].0 == entries[i].0);
            assert(after[j].0 == entries[j].0);
            assert(!names(entries[i], entries[j].0));
        }
    } else {
        assert forall|i: int, j: int| 0 <= i < j < after.len() implies !names(
            #[trigger] after[i],
            (#[trigger] after[j]).0,
        ) by {
            if j < entries.len() {
                assert(!names(entries[i], entries[j].0));
            } else {
                assert(!names(entries[i], path));
            }
        }
    }
}

/// After an insertion the path is held, once, with the value that was
/// inserted; every other path is held as before.
pub proof fn lemma_inserted_holds<V>(entries: Seq<(Seq<char>, V)>, path: Seq<char>, value: V)
    requires
        distinct(entries),
    ensures
        value_at(inserted(entries, path, value), path) == Some(value),
        count(inserted(entries, path, value), path) == 1,
        inserted(entries, path, value).len() == entries.len() + if holds(entries, path) {
            0int
        } else {
            1int
        },
        forall|other: Seq<char>|
            !same_path(encode_utf8(other), encode_utf8(path)) ==> #[trigger] value_at(
                inserted(entries, path, value),
                other,
            ) == value_at(entries, other),
{
    let after = inserted(entries, path, value);
    lemma_inserted_distinct(entries, path, value);
    if holds(entries, path) {
        lemma_place_of_held(entries, path);
        let p = place(entries, path);
        assert(is_place(after, path, p)) by {
            assert forall|j: int| 0 <= j < p implies !names(#[trigger] after[j], path) by {
                assert(!names(entries[j], path));
            }
        }
        lemma_place_is_first(after, path, p);
    } else {
        assert(is_place(after, path, entries.len() as int)) by {
            assert forall|j: int| 0 <= j < entries.len() implies !names(
                #[trigger] after[j],
                path,
            ) by {
                assert(!names(entries[j], path));
            }
        }
        lemma_place_is_first(after, path, entries.len() as int);
    }
    lemma_count_of_distinct(after, path);
    assert forall|other: Seq<char>|
        !same_path(encode_utf8(other), encode_utf8(path)) implies #[trigger] value_at(
        after,
        other,
    ) == value_at(entries, other) by {
        lemma_inserted_elsewhere(entries, path, value, other);
    }
}

/// An insertion under one path leaves what is held for another path alone.
proof fn lemma_inserted_elsewhere<V>(
    entries: Seq<(Seq<char>, V)>,
    path: Seq<char>,
    value: V,
    other: Seq<char>,
)
    requires
        !same_path(encode_utf8(other), encode_utf8(path)),
    ensures
        value_at(inserted(entries, path, value), other) == value_at(entries, other),
{
    let after = inserted(entries, path, value);
    if holds(entries, path) {
        lemma_place_of_held(entries, path);
    }
    assert forall|k: int| 0 <= k < entries.len() implies names(#[trigger] after[k], other)
        == names(entries[k], other) by {
        assert(after[k].0 == entries[k].0);
    }
    if holds(entries, other) {
        lemma_place_of_held(entries, other);
        let q = place(entries, other);
        assert(names(after[q], other) == names(entries[q], other));
        assert(is_place(after, other, q)) by {
            assert forall|j: int| 0 <= j < q implies !names(#[trigger] after[j], other) by {
                assert(names(after[j], other) == names(entries[j], other));
            }
        }
        lemma_place_is_first(after, other, q);
        if holds(entries, path) {
            lemma_place_of_held(entries, path);
            assert(place(entries, path) != q);
        }
    } else {
        if holds(after, other) {
            let k = choose|k: int| 0 <= k < after.len() && names(#[trigger] after[k], other);
            if k < entries.len() {
                assert(names(after[k], other) == names(entries[k], other));
            }
        }
    }
}

/// Among distinct paths a path is held once or not at all.
pub proof fn lemma_count_of_distinct<V>(entries: Seq<(Seq<char>, V)>, path: Seq<char>)
    requires
        distinct(entries),
    ensures
        count(entries, path) == if holds(entries, path) {
            1nat
        } else {
            0nat
        },
    decreases entries.len(),
{
    if entries.len() > 0 {
        let front = entries.drop_last();
        assert forall|i: int, j: int| 0 <= i < j < front.len() implies !names(
            #[trigger] front[i],
            (#[trigger] front[j]).0,
        ) by {
            assert(!names(entries[i], entries[j].0));
        }
        lemma_count_of_distinct(front, path);
        if names(entries.last(), path) {
            if holds(front, path) {
                let i = choose|i: int| 0 <= i < front.len() && names(#[trigger] front[i], path);
                assert(names(entries[i], entries[entries.len() - 1].0));
            }
        } else {
            if holds(entries, path) {
                let i = choose|i: int| 0 <= i < entries.len() && names(#[trigger] entries[i], path);
                assert(names(front[i], path));
            } else if holds(front, path) {
                let i = choose|i: int| 0 <= i < front.len() && names(#[trigger] front[i], path);
                assert(names(entries[i], path));
            }
        }
    }
}

/// Where some entry has the path, `place` names the first that does.
pub proof fn lemma_place_of_held<V>(entries: Seq<(Seq<char>, V)>, path: Seq<char>)
    requires
        holds(entries, path),
    ensures
        is_place(entries, path, place(entries, path)),
{
    let some = choose|i: int| 0 <= i < entries.len() && names(#[trigger] entries[i], path);
    lemma_first_before(entries, path, some);
}

/// Where the entry at `i` has the path, some entry at or before `i` is the
/// first that does.
proof fn lemma_first_before<V>(entries: Seq<(Seq<char>, V)>, path: Seq<char>, i: int)
    requires
        0 <= i < entries.len(),
        names(entries[i], path),
    ensures
        exists|k: int| is_place(entries, path, k),
    decreases i,
{
    if exists|j: int| 0 <= j < i && names(#[trigger] entries[j], path) {
        let j = choose|j: int| 0 <= j < i && names(#[trigger] entries[j], path);
        lemma_first_before(entries, path, j);
    } else {
        assert(is_place(entries, path, i));
    }
}

/// Of an entry that has the path and has none before it that does, the place
/// is the one that `place` names.
pub proof fn lemma_place_is_first<V>(entries: Seq<(Seq<char>, V)>, path: Seq<char>, i: int)
    requires
        is_place(entries, path, i),
    ensures
        holds(entries, path),
        place(entries, path) == i,
{
    let p = place(entries, path);
    assert(is_place(entries, path, p));
    if p < i {
        assert(!names(entries[p], path));
    } else if i < p {
        assert(!names(entries[i], path));
    }
}

} // verus!
