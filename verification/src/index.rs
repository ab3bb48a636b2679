//! The metadata index: a map from recipe name to the next unused image
//! sequence number.
//!
//! The index is held as a vector of entries with pairwise distinct names;
//! its mathematical meaning is the map [`map_of`].  Counters only ever grow
//! and are never handed out twice, so a deleted image's number is not
//! reused.

use vstd::prelude::*;
use crate::cbor;

verus! {

/// One recipe's record: its name and the next unused sequence number.
#[derive(Debug)]
pub struct MetaEntry {
    pub name: String,
    pub next_id: u32,
}

/// The names of all entries are pairwise distinct.
pub open spec fn keys_unique(s: Seq<MetaEntry>) -> bool {
    forall|i: int, j: int| 0 <= i < j < s.len() ==> s[i].name@ != s[j].name@
}

/// The map an entry sequence stands for.
pub open spec fn map_of(s: Seq<MetaEntry>) -> Map<Seq<char>, u32>
    decreases s.len(),
{
    if s.len() == 0 {
        Map::empty()
    } else {
        map_of(s.drop_last()).insert(s.last().name@, s.last().next_id)
    }
}

/// The plain view of an entry sequence: each entry as (name, counter).
pub open spec fn entry_views(s: Seq<MetaEntry>) -> Seq<(Seq<char>, u32)> {
    s.map_values(|e: MetaEntry| (e.name@, e.next_id))
}

/// The names in a plain entry-view sequence are pairwise distinct.
pub open spec fn views_unique(vs: Seq<(Seq<char>, u32)>) -> bool {
    forall|i: int, j: int| 0 <= i < j < vs.len() ==> vs[i].0 != vs[j].0
}

/// The map a plain entry-view sequence stands for.
pub open spec fn map_of_views(vs: Seq<(Seq<char>, u32)>) -> Map<Seq<char>, u32>
    decreases vs.len(),
{
    if vs.len() == 0 {
        Map::empty()
    } else {
        map_of_views(vs.drop_last()).insert(vs.last().0, vs.last().1)
    }
}

proof fn lemma_map_of_equals_views(s: Seq<MetaEntry>)
    ensures
        map_of(s) == map_of_views(entry_views(s)),
    decreases s.len(),
{
    if s.len() > 0 {
        lemma_map_of_equals_views(s.drop_last());
        assert(entry_views(s).drop_last() =~= entry_views(s.drop_last()));
        assert(entry_views(s).last() == (s.last().name@, s.last().next_id));
    }
}

/// A key is in the map exactly when some entry carries it.
proof fn lemma_map_of_contains(s: Seq<MetaEntry>, k: Seq<char>)
    ensures
        map_of(s).contains_key(k) <==> (exists|i: int| 0 <= i < s.len() && s[i].name@ == k),
    decreases s.len(),
{
    if s.len() > 0 {
        lemma_map_of_contains(s.drop_last(), k);
        if s.last().name@ == k {
            assert(s[s.len() - 1].name@ == k);
        } else {
            if exists|i: int| 0 <= i < s.len() && s[i].name@ == k {
                let i = choose|i: int| 0 <= i < s.len() && s[i].name@ == k;
                assert(s.drop_last()[i].name@ == k);
            }
        }
    }
}

/// With distinct names, the map sends each entry's name to its counter.
proof fn lemma_map_of_get(s: Seq<MetaEntry>, i: int)
    requires
        keys_unique(s),
        0 <= i < s.len(),
    ensures
        map_of(s).contains_key(s[i].name@),
        map_of(s)[s[i].name@] == s[i].next_id,
    decreases s.len(),
{
    if i < s.len() - 1 {
        assert(keys_unique(s.drop_last()));
        lemma_map_of_get(s.drop_last(), i);
        assert(s[i].name@ != s.last().name@);
    }
}

/// Appending a fresh entry inserts its pair into the map.
proof fn lemma_map_of_push(s: Seq<MetaEntry>, e: MetaEntry)
    ensures
        map_of(s.push(e)) == map_of(s).insert(e.name@, e.next_id),
{
    assert(s.push(e).drop_last() =~= s);
    assert(s.push(e).last() == e);
}

/// Replacing an entry in place, keeping its name, updates one key.
proof fn lemma_map_of_update(s: Seq<MetaEntry>, i: int, e: MetaEntry)
    requires
        keys_unique(s),
        0 <= i < s.len(),
        e.name@ == s[i].name@,
    ensures
        map_of(s.update(i, e)) =~= map_of(s).insert(e.name@, e.next_id),
        keys_unique(s.update(i, e)),
    decreases s.len(),
{
    let t = s.update(i, e);
    assert(keys_unique(t));
    if i == s.len() - 1 {
        assert(t.drop_last() =~= s.drop_last());
        assert(t.last() == e);
    } else {
        assert(t.drop_last() =~= s.drop_last().update(i, e));
        assert(t.last() == s.last());
        assert(keys_unique(s.drop_last()));
        lemma_map_of_update(s.drop_last(), i, e);
        assert(s[i].name@ != s.last().name@);
        assert(map_of(t) == map_of(s.drop_last()).insert(e.name@, e.next_id).insert(
            s.last().name@,
            s.last().next_id,
        ));
    }
}

/// Removing an entry removes exactly its key from the map.
proof fn lemma_map_of_remove(s: Seq<MetaEntry>, i: int)
    requires
        keys_unique(s),
        0 <= i < s.len(),
    ensures
        map_of(s.remove(i)) =~= map_of(s).remove(s[i].name@),
        keys_unique(s.remove(i)),
    decreases s.len(),
{
    let t = s.remove(i);
    assert(keys_unique(t)) by {
        assert(forall|p: int, q: int|
            0 <= p < q < t.len() ==> t[p].name@ != t[q].name@) by {
            assert(forall|p: int| 0 <= p < t.len() ==> t[p] == (if p < i {
                s[p]
            } else {
                s[p + 1]
            }));
        }
    }
    if i == s.len() - 1 {
        assert(t =~= s.drop_last());
        lemma_map_of_contains(s.drop_last(), s[i].name@);
        assert(!map_of(s.drop_last()).contains_key(s[i].name@)) by {
            if exists|j: int| 0 <= j < s.drop_last().len() && s.drop_last()[j].name@ == s[i].name@ {
                let j = choose|j: int|
                    0 <= j < s.drop_last().len() && s.drop_last()[j].name@ == s[i].name@;
                assert(s[j].name@ == s[i].name@);
            }
        }
    } else {
        assert(t.drop_last() =~= s.drop_last().remove(i));
        assert(t.last() == s.last());
        assert(keys_unique(s.drop_last()));
        lemma_map_of_remove(s.drop_last(), i);
        assert(s[i].name@ != s.last().name@);
        assert(map_of(t) == map_of(s.drop_last()).remove(s[i].name@).insert(
            s.last().name@,
            s.last().next_id,
        ));
    }
}

/// The in-memory metadata index.
#[derive(Debug)]
pub struct MetaIndex {
    entries: Vec<MetaEntry>,
}

impl View for MetaIndex {
    type V = Map<Seq<char>, u32>;

    closed spec fn view(&self) -> Map<Seq<char>, u32> {
        map_of(self.entries@)
    }
}

impl MetaIndex {
    /// The entry names are pairwise distinct.
    pub closed spec fn wf(&self) -> bool {
        keys_unique(self.entries@)
    }

    /// The entries in their stored order, as plain pairs.
    pub closed spec fn entries_view(&self) -> Seq<(Seq<char>, u32)> {
        entry_views(self.entries@)
    }

    /// A fresh, empty index.
    pub fn new() -> (r: Self)
        ensures
            r@ == Map::<Seq<char>, u32>::empty(),
            r.wf(),
            r.entries_view() == Seq::<(Seq<char>, u32)>::empty(),
    {
        let r = MetaIndex { entries: Vec::new() };
        proof {
            assert(r.entries_view() =~= Seq::<(Seq<char>, u32)>::empty());
        }
        r
    }

    /// How many recipes the index knows.
    pub fn len(&self) -> (r: usize)
        ensures
            r == self.entries_view().len(),
    {
        self.entries.len()
    }

    /// Whether the index has an entry for this exact name.
    pub fn contains(&self, name: &str) -> (r: bool)
        ensures
            r == self@.contains_key(name@),
    {
        let key: String = name.to_owned();
        let n = self.entries.len();
        let mut i: usize = 0;
        while i < n
            invariant
                i <= n,
                n == self.entries@.len(),
                key@ == name@,
                forall|j: int| 0 <= j < i ==> self.entries@[j].name@ != name@,
            decreases n - i,
        {
            if self.entries[i].name == key {
                proof {
                    lemma_map_of_contains(self.entries@, name@);
                }
                return true;
            }
            i += 1;
        }
        proof {
            lemma_map_of_contains(self.entries@, name@);
        }
        false
    }

    /// Adds a record for a name the index does not know yet.
    pub fn insert_new(&mut self, name: String, next_id: u32)
        requires
            old(self).wf(),
            !old(self)@.contains_key(name@),
        ensures
            final(self).wf(),
            final(self)@ == old(self)@.insert(name@, next_id),
            final(self).entries_view() == old(self).entries_view().push((name@, next_id)),
    {
        proof {
            lemma_map_of_contains(self.entries@, name@);
        }
        let ghost old_entries = self.entries@;
        let e = MetaEntry { name, next_id };
        self.entries.push(e);
        proof {
            lemma_map_of_push(old_entries, e);
            assert(forall|j: int| 0 <= j < old_entries.len() ==> old_entries[j].name@ != e.name@);
            assert(keys_unique(self.entries@));
            assert(self.entries_view() =~= entry_views(old_entries).push((e.name@, e.next_id)));
        }
    }

    /// Removes the record for this name; reports whether one was there.
    pub fn remove(&mut self, name: &str) -> (r: bool)
        requires
            old(self).wf(),
        ensures
            final(self).wf(),
            r == old(self)@.contains_key(name@),
            final(self)@ == old(self)@.remove(name@),
            !r ==> final(self).entries_view() == old(self).entries_view(),
            r ==> exists|i: int| {
                &&& 0 <= i < old(self).entries_view().len()
                &&& (#[trigger] old(self).entries_view()[i]).0 == name@
                &&& final(self).entries_view() == old(self).entries_view().remove(i)
            },
    {
        let key: String = name.to_owned();
        let n = self.entries.len();
        let mut i: usize = 0;
        while i < n
            invariant
                i <= n,
                n == self.entries@.len(),
                key@ == name@,
                self.entries@ == old(self).entries@,
                keys_unique(self.entries@),
                forall|j: int| 0 <= j < i ==> self.entries@[j].name@ != name@,
            decreases n - i,
        {
            if self.entries[i].name == key {
                let ghost old_entries = self.entries@;
                proof {
                    lemma_map_of_remove(self.entries@, i as int);
                    lemma_map_of_contains(self.entries@, name@);
                }
                self.entries.remove(i);
                proof {
                    assert(entry_views(self.entries@) =~= entry_views(old_entries).remove(
                        i as int,
                    )) by {
                        assert(forall|j: int|
                            0 <= j < self.entries@.len() ==> #[trigger] self.entries@[j] == (if j
                                < i as int {
                                old_entries[j]
                            } else {
                                old_entries[j + 1]
                            }));
                    }
                    assert(old(self).entries_view()[i as int].0 == name@);
                    assert(self.entries_view() == old(self).entries_view().remove(i as int));
                    assert(exists|j: int| {
                        &&& 0 <= j < old(self).entries_view().len()
                        &&& (#[trigger] old(self).entries_view()[j]).0 == name@
                        &&& self.entries_view() == old(self).entries_view().remove(j)
                    });
                }
                return true;
            }
            i += 1;
        }
        proof {
            lemma_map_of_contains(self.entries@, name@);
            assert(self@ =~= self@.remove(name@));
        }
        false
    }

    /// The stored counter for this name, if the index knows it.
    pub fn get(&self, name: &str) -> (r: Option<u32>)
        requires
            self.wf(),
        ensures
            match r {
                Some(id) => self@.contains_key(name@) && id == self@[name@],
                None => !self@.contains_key(name@),
            },
    {
        let key: String = name.to_owned();
        let n = self.entries.len();
        let mut i: usize = 0;
        while i < n
            invariant
                i <= n,
                n == self.entries@.len(),
                key@ == name@,
                keys_unique(self.entries@),
                forall|j: int| 0 <= j < i ==> self.entries@[j].name@ != name@,
            decreases n - i,
        {
            if self.entries[i].name == key {
                proof {
                    lemma_map_of_get(self.entries@, i as int);
                }
                return Some(self.entries[i].next_id);
            }
            i += 1;
        }
        proof {
            lemma_map_of_contains(self.entries@, name@);
        }
        None
    }

    /// Hands out the next sequence number for this name and advances the
    /// counter by one.  Returns `None` when the name is unknown or its
    /// counter is exhausted; the index is then unchanged.
    pub fn take_next_id(&mut self, name: &str) -> (r: Option<u32>)
        requires
            old(self).wf(),
        ensures
            final(self).wf(),
            match r {
                Some(id) => {
                    &&& old(self)@.contains_key(name@)
                    &&& id == old(self)@[name@]
                    &&& id < u32::MAX
                    &&& final(self)@ == old(self)@.insert(name@, (id + 1) as u32)
                    &&& exists|i: int| {
                        &&& 0 <= i < old(self).entries_view().len()
                        &&& #[trigger] old(self).entries_view()[i] == (name@, id)
                        &&& final(self).entries_view() == old(self).entries_view().update(
                            i,
                            (name@, (id + 1) as u32),
                        )
                    }
                },
                None => {
                    &&& final(self)@ == old(self)@
                    &&& final(self).entries_view() == old(self).entries_view()
                    &&& (!old(self)@.contains_key(name@) || old(self)@[name@] == u32::MAX)
                },
            },
    {
        let key: String = name.to_owned();
        let n = self.entries.len();
        let mut i: usize = 0;
        while i < n
            invariant
                i <= n,
                n == self.entries@.len(),
                key@ == name@,
                self.entries@ == old(self).entries@,
                keys_unique(self.entries@),
                forall|j: int| 0 <= j < i ==> self.entries@[j].name@ != name@,
            decreases n - i,
        {
            if self.entries[i].name == key {
                proof {
                    lemma_map_of_get(self.entries@, i as int);
                }
                let id = self.entries[i].next_id;
                if id == u32::MAX {
                    return None;
                }
                let ghost old_entries = self.entries@;
                let e = &mut self.entries[i];
                e.next_id = id + 1;
                proof {
                    lemma_map_of_update(
                        old_entries,
                        i as int,
                        MetaEntry { name: old_entries[i as int].name, next_id: (id + 1) as u32 },
                    );
                    assert(entry_views(self.entries@) =~= entry_views(old_entries).update(
                        i as int,
                        (name@, (id + 1) as u32),
                    ));
                    assert(old(self).entries_view()[i as int] == (name@, id));
                    assert(self.entries_view() == old(self).entries_view().update(
                        i as int,
                        (name@, (id + 1) as u32),
                    ));
                    assert(exists|j: int| {
                        &&& 0 <= j < old(self).entries_view().len()
                        &&& #[trigger] old(self).entries_view()[j] == (name@, id)
                        &&& self.entries_view() == old(self).entries_view().update(
                            j,
                            (name@, (id + 1) as u32),
                        )
                    });
                }
                return Some(id);
            }
            i += 1;
        }
        proof {
            lemma_map_of_contains(self.entries@, name@);
        }
        None
    }

    /// The map this index stands for is determined by its plain entry views.
    pub proof fn lemma_map_is_of_views(&self)
        ensures
            self@ == map_of_views(self.entries_view()),
    {
        lemma_map_of_equals_views(self.entries@);
    }

    /// Writes the snapshot bytes of this index.
    pub fn serialize(&self) -> (r: Vec<u8>)
        ensures
            r@ == cbor::spec_index_bytes(self.entries_view()),
    {
        cbor::encode_entries(&self.entries)
    }

    /// Rebuilds an index from a decoded entry list.  `None` when two entries
    /// carry the same name: such a snapshot is corrupt.
    pub fn from_entry_list(v: Vec<MetaEntry>) -> (r: Option<MetaIndex>)
        ensures
            match r {
                Some(ix) => {
                    &&& ix.wf()
                    &&& ix.entries_view() == entry_views(v@)
                    &&& views_unique(entry_views(v@))
                },
                None => !views_unique(entry_views(v@)),
            },
    {
        let mut ix = MetaIndex::new();
        let n = v.len();
        let mut i: usize = 0;
        proof {
            assert(ix.entries_view() =~= entry_views(v@).take(0));
        }
        while i < n
            invariant
                i <= n,
                n == v@.len(),
                ix.wf(),
                ix.entries_view() == entry_views(v@).take(i as int),
            decreases n - i,
        {
            let e = &v[i];
            if ix.contains(e.name.as_str()) {
                proof {
                    lemma_map_of_contains(ix.entries@, e.name@);
                    let j = choose|j: int|
                        0 <= j < ix.entries@.len() && ix.entries@[j].name@ == e.name@;
                    assert(entry_views(ix.entries@).len() == ix.entries@.len());
                    assert(entry_views(ix.entries@) == entry_views(v@).take(i as int));
                    assert(0 <= j < i as int);
                    assert(entry_views(ix.entries@)[j] == (
                        ix.entries@[j].name@,
                        ix.entries@[j].next_id,
                    ));
                    assert(entry_views(v@).take(i as int)[j] == entry_views(v@)[j]);
                    assert(entry_views(v@)[i as int] == (v@[i as int].name@, v@[i as int].next_id));
                    assert(entry_views(v@)[j].0 == entry_views(v@)[i as int].0);
                    assert(!views_unique(entry_views(v@)));
                }
                return None;
            }
            let name = e.name.clone();
            let id = e.next_id;
            ix.insert_new(name, id);
            proof {
                assert(entry_views(v@)[i as int] == (v@[i as int].name@, v@[i as int].next_id));
                assert(ix.entries_view() =~= entry_views(v@).take(i + 1));
            }
            i += 1;
        }
        proof {
            assert(entry_views(v@).take(n as int) =~= entry_views(v@));
            assert(views_unique(entry_views(v@))) by {
                assert(forall|p: int|
                    0 <= p < ix.entries@.len() ==> (#[trigger] entry_views(ix.entries@)[p]).0
                        == ix.entries@[p].name@);
            }
        }
        Some(ix)
    }
}

} // verus!
