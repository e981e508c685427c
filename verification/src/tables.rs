//! The shared string table: an append-only arena of byte strings.
//!
//! An entry's id is its position. Entries are never moved or removed, so an
//! id stays valid, and keeps its meaning, for the whole session. Asking for
//! a value that is already present gives the id of its first occurrence.

use vstd::prelude::*;
use crate::bytes::{bytes_eq, copy_range};
use crate::error::PatchError;

verus! {

/// The first position at or after `i` that holds `v`, or the length of `s`.
pub open spec fn position_from(s: Seq<Seq<u8>>, v: Seq<u8>, i: int) -> int
    decreases s.len() - i,
{
    if 0 <= i < s.len() && s[i] != v {
        position_from(s, v, i + 1)
    } else {
        i
    }
}

/// The first position that holds `v`, or the length of `s` if none does.
pub open spec fn position(s: Seq<Seq<u8>>, v: Seq<u8>) -> int {
    position_from(s, v, 0)
}

/// The table after `v` was asked for: unchanged where `v` is present,
/// else longer by `v`.
pub open spec fn inserted(s: Seq<Seq<u8>>, v: Seq<u8>) -> Seq<Seq<u8>> {
    if position(s, v) < s.len() {
        s
    } else {
        s.push(v)
    }
}

/// No value occurs twice.
pub open spec fn unique(s: Seq<Seq<u8>>) -> bool {
    forall|i: int, j: int| 0 <= i < j < s.len() ==> s[i] != s[j]
}

/// What each row of a vector of byte vectors holds.
pub open spec fn rows(v: Seq<Vec<u8>>) -> Seq<Seq<u8>> {
    Seq::new(v.len(), |i: int| v[i]@)
}

/// An append-only table of byte strings, each with a dense id.
pub struct SharedStringTable {
    entries: Vec<Vec<u8>>,
}

impl View for SharedStringTable {
    type V = Seq<Seq<u8>>;

    closed spec fn view(&self) -> Seq<Seq<u8>> {
        rows(self.entries@)
    }
}

impl SharedStringTable {
    /// A table with no entries.
    pub fn new() -> (table: Self)
        ensures
            table@ == Seq::<Seq<u8>>::empty(),
    {
        let table = SharedStringTable { entries: Vec::new() };
        assert(table@ =~= Seq::<Seq<u8>>::empty());
        table
    }

    /// A table that holds `entries` in their order, duplicates included.
    pub fn from_entries(entries: Vec<Vec<u8>>) -> (table: Self)
        ensures
            table@ == rows(entries@),
    {
        SharedStringTable { entries }
    }

    /// The number of entries.
    pub fn len(&self) -> (n: usize)
        ensures
            n == self@.len(),
    {
        self.entries.len()
    }

    /// The id of `value`, if the table holds it.
    pub fn find(&self, value: &[u8]) -> (id: Option<usize>)
        ensures
            id == if position(self@, value@) < self@.len() {
                Some(position(self@, value@) as usize)
            } else {
                None::<usize>
            },
    {
        let mut i: usize = 0;
        while i < self.entries.len()
            invariant
                i <= self.entries.len(),
                position(self@, value@) == position_from(self@, value@, i as int),
            decreases self.entries.len() - i,
        {
            if bytes_eq(self.entries[i].as_slice(), value) {
                return Some(i);
            }
            i += 1;
        }
        None
    }

    /// The id of `value`: that of its first occurrence if the table holds
    /// it, else the id of a new entry appended for it.
    pub fn get_or_insert(&mut self, value: &[u8]) -> (id: usize)
        ensures
            id == position(old(self)@, value@),
            final(self)@ == inserted(old(self)@, value@),
    {
        proof {
            lemma_position(self@, value@);
        }
        let next = self.entries.len();
        match self.find(value) {
            Some(id) => id,
            None => {
                let id = next;
                let ghost before = self@;
                self.entries.push(copy_range(value, 0, value.len()));
                proof {
                    assert(value@.subrange(0, value@.len() as int) =~= value@);
                    assert(self@ =~= before.push(value@));
                }
                id
            },
        }
    }

    /// The value with id `id`; `InvalidIndex` if no entry has that id.
    pub fn resolve(&self, id: usize) -> (outcome: Result<&Vec<u8>, PatchError>)
        ensures
            match outcome {
                Ok(value) => id < self@.len() && value@ == self@[id as int],
                Err(e) => id >= self@.len() && e == PatchError::InvalidIndex,
            },
    {
        if id < self.entries.len() {
            Ok(&self.entries[id])
        } else {
            Err(PatchError::InvalidIndex)
        }
    }

    /// A copy of the table.
    pub fn duplicate(&self) -> (copy: Self)
        ensures
            copy@ == self@,
    {
        let entries = self.entries_from(0);
        assert(self@.subrange(0, self@.len() as int) =~= self@);
        SharedStringTable { entries }
    }

    /// A copy of the entries from `start` on, in order.
    pub fn entries_from(&self, start: usize) -> (tail: Vec<Vec<u8>>)
        requires
            start <= self@.len(),
        ensures
            rows(tail@) == self@.subrange(start as int, self@.len() as int),
    {
        let mut tail: Vec<Vec<u8>> = Vec::new();
        let mut i: usize = start;
        while i < self.entries.len()
            invariant
                start <= i <= self.entries.len(),
                rows(tail@) == self@.subrange(start as int, i as int),
            decreases self.entries.len() - i,
        {
            let e = &self.entries[i];
            let ghost before = rows(tail@);
            tail.push(copy_range(e.as_slice(), 0, e.len()));
            i += 1;
            proof {
                assert(e@.subrange(0, e@.len() as int) =~= e@);
                assert(rows(tail@) =~= before.push(e@));
                assert(rows(tail@) =~= self@.subrange(start as int, i as int));
            }
        }
        tail
    }
}

/// `position` is the least index that holds the value.
pub proof fn lemma_position(s: Seq<Seq<u8>>, v: Seq<u8>)
    ensures
        0 <= position(s, v) <= s.len(),
        position(s, v) < s.len() ==> s[position(s, v)] == v,
        forall|j: int| 0 <= j < position(s, v) ==> s[j] != v,
{
    lemma_position_from(s, v, 0);
}

/// `position_from` is the least index from `i` on that holds the value.
pub proof fn lemma_position_from(s: Seq<Seq<u8>>, v: Seq<u8>, i: int)
    requires
        0 <= i <= s.len(),
    ensures
        i <= position_from(s, v, i) <= s.len(),
        position_from(s, v, i) < s.len() ==> s[position_from(s, v, i)] == v,
        forall|j: int| i <= j < position_from(s, v, i) ==> s[j] != v,
    decreases s.len() - i,
{
    if i < s.len() && s[i] != v {
        lemma_position_from(s, v, i + 1);
    }
}

/// A value is found at the least index that holds it.
pub proof fn lemma_position_is(s: Seq<Seq<u8>>, v: Seq<u8>, p: int)
    requires
        0 <= p <= s.len(),
        p < s.len() ==> s[p] == v,
        forall|j: int| 0 <= j < p ==> s[j] != v,
    ensures
        position(s, v) == p,
{
    lemma_position(s, v);
}

/// Asking twice for the same value gives the same id both times, and the
/// second call leaves the table as the first left it: across the two calls
/// the table grows by one entry if the value was new, and not at all if it
/// was present.
pub proof fn lemma_insert_twice(s: Seq<Seq<u8>>, v: Seq<u8>)
    ensures
        position(inserted(s, v), v) == position(s, v),
        inserted(inserted(s, v), v) == inserted(s, v),
        inserted(s, v).len() == s.len() + (if position(s, v) < s.len() {
            0int
        } else {
            1int
        }),
{
    lemma_position(s, v);
    if position(s, v) == s.len() {
        lemma_position_is(s.push(v), v, s.len() as int);
    }
}

/// An insertion changes no id that was assigned before it.
pub proof fn lemma_insert_keeps_ids(s: Seq<Seq<u8>>, v: Seq<u8>)
    ensures
        s.len() <= inserted(s, v).len(),
        inserted(s, v).subrange(0, s.len() as int) == s,
        forall|w: Seq<u8>|
            position(s, w) < s.len() ==> #[trigger] position(inserted(s, v), w) == position(
                s,
                w,
            ),
{
    assert(inserted(s, v).subrange(0, s.len() as int) =~= s);
    assert forall|w: Seq<u8>| position(s, w) < s.len() implies #[trigger] position(
        inserted(s, v),
        w,
    ) == position(s, w) by {
        lemma_position(s, w);
        lemma_position_is(inserted(s, v), w, position(s, w));
    }
}

/// An insertion into a table without duplicates creates none.
pub proof fn lemma_insert_keeps_unique(s: Seq<Seq<u8>>, v: Seq<u8>)
    requires
        unique(s),
    ensures
        unique(inserted(s, v)),
{
    lemma_position(s, v);
}

} // verus!
