//! The in-memory key index.
//!
//! For each key the index holds the location of the newest record that
//! mentions it: the segment's numeric name, the byte offset and the byte
//! length of the record, together with (ghost) the record itself.  The
//! index is a sequence of entries with pairwise distinct keys; its view
//! is the finite map from key to location.

use vstd::prelude::*;

use crate::codec::RecModel;

verus! {

/// Where the newest record for a key lies.
#[derive(Clone, Copy)]
pub struct Location {
    /// Numeric name of the segment file that holds the record.
    pub segment: u64,
    /// Byte offset of the record inside that segment.
    pub offset: usize,
    /// Byte length of the encoded record.
    pub len: usize,
    /// The record itself, carried for specification purposes.
    pub rec: Ghost<RecModel>,
}

/// The mathematical content of a `Location`.
pub ghost struct LocModel {
    pub segment: u64,
    pub offset: nat,
    pub len: nat,
    pub rec: RecModel,
}

impl View for Location {
    type V = LocModel;

    open spec fn view(&self) -> LocModel {
        LocModel {
            segment: self.segment,
            offset: self.offset as nat,
            len: self.len as nat,
            rec: self.rec@,
        }
    }
}

/// The map an entry sequence denotes: later entries shadow earlier ones.
pub open spec fn entries_map(e: Seq<(String, Location)>) -> Map<Seq<char>, LocModel>
    decreases e.len(),
{
    if e.len() == 0 {
        Map::empty()
    } else {
        entries_map(e.drop_last()).insert(e.last().0@, e.last().1@)
    }
}

/// No two entries share a key.
pub open spec fn distinct_keys(e: Seq<(String, Location)>) -> bool {
    forall|i: int, j: int| 0 <= i < j < e.len() ==> (#[trigger] e[i]).0@ != (#[trigger] e[j]).0@
}

/// Some entry carries the key `k`.
pub open spec fn has_key(e: Seq<(String, Location)>, k: Seq<char>) -> bool {
    exists|i: int| 0 <= i < e.len() && (#[trigger] e[i]).0@ == k
}

/// The denoted map contains exactly the keys of the entries.
pub proof fn lemma_entries_map_contains(e: Seq<(String, Location)>, k: Seq<char>)
    ensures
        entries_map(e).contains_key(k) <==> has_key(e, k),
    decreases e.len(),
{
    if e.len() > 0 {
        lemma_entries_map_contains(e.drop_last(), k);
        if e.last().0@ == k {
            assert(e[e.len() - 1].0@ == k);
        }
        if has_key(e, k) {
            let i = choose|i: int| 0 <= i < e.len() && (#[trigger] e[i]).0@ == k;
            if i < e.len() - 1 {
                assert(e.drop_last()[i].0@ == k);
            }
        }
        if has_key(e.drop_last(), k) {
            let i = choose|i: int|
                0 <= i < e.drop_last().len() && (#[trigger] e.drop_last()[i]).0@ == k;
            assert(e[i].0@ == k);
        }
    }
}

/// With distinct keys, the denoted map sends an entry's key to that
/// entry's location.
pub proof fn lemma_entries_map_at(e: Seq<(String, Location)>, i: int)
    requires
        distinct_keys(e),
        0 <= i < e.len(),
    ensures
        entries_map(e).contains_key(e[i].0@),
        entries_map(e)[e[i].0@] == e[i].1@,
    decreases e.len(),
{
    lemma_entries_map_contains(e, e[i].0@);
    if i < e.len() - 1 {
        assert(distinct_keys(e.drop_last()));
        assert(e.drop_last()[i] == e[i]);
        lemma_entries_map_at(e.drop_last(), i);
        assert(e[i].0@ != e.last().0@);
    }
}

/// Removing the entry at `i` removes exactly its key from the map.
pub proof fn lemma_entries_map_remove(e: Seq<(String, Location)>, i: int)
    requires
        distinct_keys(e),
        0 <= i < e.len(),
    ensures
        entries_map(e.remove(i)) == entries_map(e).remove(e[i].0@),
    decreases e.len(),
{
    let k = e[i].0@;
    if i == e.len() - 1 {
        assert(e.remove(i) =~= e.drop_last());
        lemma_entries_map_contains(e.drop_last(), k);
        assert(!has_key(e.drop_last(), k)) by {
            if has_key(e.drop_last(), k) {
                let j = choose|j: int|
                    0 <= j < e.drop_last().len() && (#[trigger] e.drop_last()[j]).0@ == k;
                assert(e[j].0@ == k);
            }
        }
        assert(entries_map(e.drop_last()) =~= entries_map(e).remove(k));
    } else {
        assert(distinct_keys(e.drop_last()));
        assert(e.remove(i).drop_last() =~= e.drop_last().remove(i));
        assert(e.remove(i).last() == e.last());
        lemma_entries_map_remove(e.drop_last(), i);
        assert(e.drop_last()[i] == e[i]);
        assert(e.last().0@ != k);
        assert(entries_map(e.remove(i)) == entries_map(e.drop_last()).remove(k).insert(
            e.last().0@,
            e.last().1@,
        ));
        assert(entries_map(e.drop_last()).remove(k).insert(e.last().0@, e.last().1@)
            =~= entries_map(e).remove(k));
    }
}

/// The in-memory index: key to location of the newest record.
pub struct KeyIndex {
    pub entries: Vec<(String, Location)>,
}

impl View for KeyIndex {
    type V = Map<Seq<char>, LocModel>;

    open spec fn view(&self) -> Map<Seq<char>, LocModel> {
        entries_map(self.entries@)
    }
}

impl KeyIndex {
    /// Keys are pairwise distinct.
    pub open spec fn wf(self) -> bool {
        distinct_keys(self.entries@)
    }

    /// An empty index.
    pub fn new() -> (r: KeyIndex)
        ensures
            r.wf(),
            r@ == Map::<Seq<char>, LocModel>::empty(),
            r.entries@.len() == 0,
    {
        KeyIndex { entries: Vec::new() }
    }

    /// The location recorded for `key`, if any.
    pub fn lookup(&self, key: &String) -> (r: Option<Location>)
        requires
            self.wf(),
        ensures
            match r {
                Some(loc) => self@.contains_key(key@) && self@[key@] == loc@,
                None => !self@.contains_key(key@),
            },
    {
        let n = self.entries.len();
        let mut i: usize = 0;
        while i < n
            invariant
                n == self.entries@.len(),
                i <= n,
                self.wf(),
                forall|j: int| 0 <= j < i ==> (#[trigger] self.entries@[j]).0@ != key@,
            decreases n - i,
        {
            if self.entries[i].0 == *key {
                proof {
                    lemma_entries_map_at(self.entries@, i as int);
                }
                return Some(self.entries[i].1);
            }
            i += 1;
        }
        proof {
            lemma_entries_map_contains(self.entries@, key@);
        }
        None
    }

    /// Drop any mapping for `key`.
    pub fn erase(&mut self, key: &String)
        requires
            old(self).wf(),
        ensures
            final(self).wf(),
            final(self)@ == old(self)@.remove(key@),
            !has_key(final(self).entries@, key@),
    {
        let n = self.entries.len();
        let mut i: usize = 0;
        while i < n
            invariant
                n == self.entries@.len(),
                i <= n,
                self.wf(),
                self.entries@ == old(self).entries@,
                forall|j: int| 0 <= j < i ==> (#[trigger] self.entries@[j]).0@ != key@,
            decreases n - i,
        {
            if self.entries[i].0 == *key {
                proof {
                    lemma_entries_map_remove(self.entries@, i as int);
                }
                let ghost pre = self.entries@;
                self.entries.remove(i);
                proof {
                    assert(self.entries@ =~= pre.remove(i as int));
                    assert(!has_key(self.entries@, key@)) by {
                        if has_key(self.entries@, key@) {
                            let j = choose|j: int|
                                0 <= j < self.entries@.len() && (#[trigger] self.entries@[j]).0@
                                    == key@;
                            if j < i {
                                assert(pre[j].0@ == key@);
                            } else {
                                assert(pre[j + 1].0@ == key@);
                            }
                        }
                    }
                }
                return ;
            }
            i += 1;
        }
        proof {
            lemma_entries_map_contains(self.entries@, key@);
            assert(self@ =~= old(self)@.remove(key@));
        }
    }

    /// Map `key` to `loc`, replacing any prior mapping.
    pub fn upsert(&mut self, key: String, loc: Location)
        requires
            old(self).wf(),
        ensures
            final(self).wf(),
            final(self)@ == old(self)@.insert(key@, loc@),
    {
        self.erase(&key);
        let ghost erased = self.entries@;
        self.entries.push((key, loc));
        proof {
            assert(self.entries@.drop_last() =~= erased);
            assert(forall|j: int|
                0 <= j < erased.len() ==> (#[trigger] erased[j]).0@ != self.entries@.last().0@);
            assert(distinct_keys(self.entries@)) by {
                assert(forall|j: int|
                    0 <= j < self.entries@.len() - 1 ==> #[trigger] self.entries@[j] == erased[j]);
            }
            assert(self@ =~= old(self)@.insert(self.entries@.last().0@, loc@));
        }
    }

    /// How many keys the index holds.
    pub fn count(&self) -> (r: usize)
        ensures
            r == self.entries@.len(),
    {
        self.entries.len()
    }
}

} // verus!
