use vstd::prelude::*;
use crate::data::log_record::LogRecordPos;

verus! {

/// Compares two byte vectors for equality.
pub fn bytes_equal(a: &Vec<u8>, b: &Vec<u8>) -> (r: bool)
    ensures
        r == (a@ == b@),
{
    if a.len() != b.len() {
        assert(a@ != b@);
        return false;
    }
    let mut i: usize = 0;
    while i < a.len()
        invariant
            i <= a@.len(),
            a@.len() == b@.len(),
            forall|j: int| 0 <= j < i ==> a@[j] == b@[j],
        decreases a@.len() - i,
    {
        if a[i] != b[i] {
            assert(a@ != b@);
            return false;
        }
        i = i + 1;
    }
    assert(a@ =~= b@);
    true
}

/// The mapping that a sequence of key/position entries represents: later
/// entries overwrite earlier ones.
pub open spec fn entries_map(s: Seq<(Vec<u8>, LogRecordPos)>) -> Map<Seq<u8>, LogRecordPos>
    decreases s.len(),
{
    if s.len() == 0 {
        Map::empty()
    } else {
        entries_map(s.drop_last()).insert(s.last().0@, s.last().1)
    }
}

/// A key is in the represented mapping exactly when some entry holds it.
pub proof fn lemma_entries_contains(s: Seq<(Vec<u8>, LogRecordPos)>, k: Seq<u8>)
    ensures
        entries_map(s).contains_key(k) <==> exists|i: int| 0 <= i < s.len() && s[i].0@ == k,
    decreases s.len(),
{
    if s.len() > 0 {
        lemma_entries_contains(s.drop_last(), k);
        if s.last().0@ == k {
            assert(s[s.len() - 1].0@ == k);
        } else {
            if entries_map(s).contains_key(k) {
                let i = choose|i: int| 0 <= i < s.drop_last().len() && s.drop_last()[i].0@ == k;
                assert(s[i].0@ == k);
            }
            if exists|i: int| 0 <= i < s.len() && s[i].0@ == k {
                let i = choose|i: int| 0 <= i < s.len() && s[i].0@ == k;
                assert(i < s.len() - 1);
                assert(s.drop_last()[i].0@ == k);
            }
        }
    }
}

/// Entry keys occur at most once.
pub open spec fn entries_distinct(s: Seq<(Vec<u8>, LogRecordPos)>) -> bool {
    forall|i: int, j: int| 0 <= i < j < s.len() ==> s[i].0@ != s[j].0@
}

/// With distinct keys, the entry holding a key gives its mapped position.
pub proof fn lemma_entries_lookup(s: Seq<(Vec<u8>, LogRecordPos)>, i: int)
    requires
        entries_distinct(s),
        0 <= i < s.len(),
    ensures
        entries_map(s).contains_key(s[i].0@),
        entries_map(s)[s[i].0@] == s[i].1,
    decreases s.len(),
{
    lemma_entries_contains(s, s[i].0@);
    if i == s.len() - 1 {
    } else {
        assert(s.drop_last()[i] == s[i]);
        assert(entries_distinct(s.drop_last())) by {
            assert(forall|x: int, y: int|
                0 <= x < y < s.drop_last().len() ==> s.drop_last()[x] == s[x] && s.drop_last()[y]
                    == s[y]);
        }
        lemma_entries_lookup(s.drop_last(), i);
        assert(s[i].0@ != s.last().0@);
    }
}

/// Replacing the entry that holds a key updates the mapping at that key.
pub proof fn lemma_entries_update(s: Seq<(Vec<u8>, LogRecordPos)>, i: int, e: (Vec<u8>, LogRecordPos))
    requires
        entries_distinct(s),
        0 <= i < s.len(),
        s[i].0@ == e.0@,
    ensures
        entries_map(s.update(i, e)) == entries_map(s).insert(e.0@, e.1),
    decreases s.len(),
{
    let t = s.update(i, e);
    if i == s.len() - 1 {
        assert(t.drop_last() =~= s.drop_last());
        assert(t.last() == e);
        assert(entries_map(t) =~= entries_map(s).insert(e.0@, e.1));
    } else {
        assert(s.drop_last()[i] == s[i]);
        assert(entries_distinct(s.drop_last())) by {
            assert(forall|x: int, y: int|
                0 <= x < y < s.drop_last().len() ==> s.drop_last()[x] == s[x] && s.drop_last()[y]
                    == s[y]);
        }
        lemma_entries_update(s.drop_last(), i, e);
        assert(t.drop_last() =~= s.drop_last().update(i, e));
        assert(t.last() == s.last());
        assert(s[i].0@ != s.last().0@);
        assert(entries_map(t) =~= entries_map(s).insert(e.0@, e.1));
    }
}

/// Removing the entry that holds a key removes the key from the mapping.
pub proof fn lemma_entries_remove(s: Seq<(Vec<u8>, LogRecordPos)>, i: int)
    requires
        entries_distinct(s),
        0 <= i < s.len(),
    ensures
        entries_map(s.remove(i)) == entries_map(s).remove(s[i].0@),
    decreases s.len(),
{
    let k = s[i].0@;
    if i == s.len() - 1 {
        assert(s.remove(i) =~= s.drop_last());
        lemma_entries_contains(s.drop_last(), k);
        assert(forall|x: int| 0 <= x < s.drop_last().len() ==> s.drop_last()[x] == s[x]);
        assert(!entries_map(s.drop_last()).contains_key(k));
        assert(entries_map(s.remove(i)) =~= entries_map(s).remove(k));
    } else {
        assert(s.drop_last()[i] == s[i]);
        assert(entries_distinct(s.drop_last())) by {
            assert(forall|x: int, y: int|
                0 <= x < y < s.drop_last().len() ==> s.drop_last()[x] == s[x] && s.drop_last()[y]
                    == s[y]);
        }
        lemma_entries_remove(s.drop_last(), i);
        assert(s.remove(i).drop_last() =~= s.drop_last().remove(i));
        assert(s.remove(i).last() == s.last());
        assert(k != s.last().0@);
        assert(entries_map(s.remove(i)) =~= entries_map(s).remove(k));
    }
}

/// The in-memory index: a thread-safe last-writer-wins mapping from key to
/// the position of the key's latest live record. Another data structure can
/// stand behind the engine by implementing this.
pub trait Indexer: Sync + Send {
    /// The mapping this index represents.
    spec fn index_view(&self) -> Map<Seq<u8>, LogRecordPos>;

    /// The implementation's internal well-formedness condition.
    spec fn inv(&self) -> bool;

    /// Stores the position under the key, overwriting any prior entry;
    /// reports whether the store took effect.
    fn put(&mut self, key: Vec<u8>, pos: LogRecordPos) -> (ok: bool)
        requires
            old(self).inv(),
        ensures
            final(self).inv(),
            ok ==> final(self).index_view() == old(self).index_view().insert(key@, pos),
            !ok ==> final(self).index_view() == old(self).index_view(),
    ;

    /// Looks up the position stored under the key.
    fn get(&self, key: Vec<u8>) -> (r: Option<LogRecordPos>)
        requires
            self.inv(),
        ensures
            r == if self.index_view().contains_key(key@) {
                Some(self.index_view()[key@])
            } else {
                None::<LogRecordPos>
            },
    ;

    /// Removes the key; reports whether an entry was present.
    fn delete(&mut self, key: Vec<u8>) -> (r: bool)
        requires
            old(self).inv(),
        ensures
            final(self).inv(),
            final(self).index_view() == old(self).index_view().remove(key@),
            r == old(self).index_view().contains_key(key@),
    ;
}

/// The default index: a vector of key/position entries with distinct keys.
#[derive(Debug)]
pub struct Keydir {
    entries: Vec<(Vec<u8>, LogRecordPos)>,
}

impl Keydir {
    /// Entry keys occur at most once.
    pub closed spec fn wf(&self) -> bool {
        entries_distinct(self.entries@)
    }

    /// Creates an empty index.
    pub fn new() -> (r: Keydir)
        ensures
            r.wf(),
            r.index_view() == Map::<Seq<u8>, LogRecordPos>::empty(),
    {
        Keydir { entries: Vec::new() }
    }

    /// The position of the entry holding `key`, if any.
    fn find(&self, key: &Vec<u8>) -> (r: Option<usize>)
        ensures
            r matches Some(i) ==> i < self.entries@.len() && self.entries@[i as int].0@ == key@,
            r is None ==> forall|j: int|
                0 <= j < self.entries@.len() ==> self.entries@[j].0@ != key@,
    {
        let mut i: usize = 0;
        while i < self.entries.len()
            invariant
                i <= self.entries@.len(),
                forall|j: int| 0 <= j < i ==> self.entries@[j].0@ != key@,
            decreases self.entries@.len() - i,
        {
            if bytes_equal(&self.entries[i].0, key) {
                return Some(i);
            }
            i = i + 1;
        }
        None
    }
}

impl Indexer for Keydir {
    closed spec fn index_view(&self) -> Map<Seq<u8>, LogRecordPos> {
        entries_map(self.entries@)
    }

    open spec fn inv(&self) -> bool {
        self.wf()
    }

    fn put(&mut self, key: Vec<u8>, pos: LogRecordPos) -> (ok: bool)
        ensures
            ok,
    {
        match self.find(&key) {
            Some(i) => {
                let ghost s = self.entries@;
                let kpos = (key, pos);
                self.entries[i] = kpos;
                proof {
                    lemma_entries_update(s, i as int, kpos);
                }
                true
            },
            None => {
                let ghost s = self.entries@;
                self.entries.push((key, pos));
                proof {
                    assert(self.entries@.drop_last() =~= s);
                }
                true
            },
        }
    }

    fn get(&self, key: Vec<u8>) -> (r: Option<LogRecordPos>) {
        match self.find(&key) {
            Some(i) => {
                proof {
                    lemma_entries_lookup(self.entries@, i as int);
                }
                Some(self.entries[i].1)
            },
            None => {
                proof {
                    lemma_entries_contains(self.entries@, key@);
                }
                None
            },
        }
    }

    fn delete(&mut self, key: Vec<u8>) -> (r: bool) {
        match self.find(&key) {
            Some(i) => {
                let ghost s = self.entries@;
                self.entries.remove(i);
                proof {
                    lemma_entries_remove(s, i as int);
                    lemma_entries_contains(s, key@);
                }
                true
            },
            None => {
                proof {
                    lemma_entries_contains(self.entries@, key@);
                    assert(self.index_view().remove(key@) =~= self.index_view());
                }
                false
            },
        }
    }
}

} // verus!
