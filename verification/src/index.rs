//! The in-memory key index: a map from key to the location of the key's
//! most recent `Set` record in the segment files.
use vstd::prelude::*;

verus! {

/// Where one persisted record lives: the id of its segment, the offset of
/// its first character in that segment, and its length in characters.
/// `cmd_idx` is the ghost position of the record in the segment's record
/// sequence; it ties the location to the segment's contents in proofs.
pub struct Location {
    pub segment: u64,
    pub offset: usize,
    pub length: usize,
    pub cmd_idx: Ghost<int>,
}

impl Clone for Location {
    fn clone(&self) -> (r: Self)
        ensures
            r == *self,
    {
        Location {
            segment: self.segment,
            offset: self.offset,
            length: self.length,
            cmd_idx: self.cmd_idx,
        }
    }
}

impl Copy for Location {

}

/// The map denoted by an entry list; a later entry for the same key wins,
/// though a well-formed list never repeats a key.
pub open spec fn entries_map(s: Seq<(String, Location)>) -> Map<Seq<char>, Location>
    decreases s.len(),
{
    if s.len() == 0 {
        Map::empty()
    } else {
        entries_map(s.drop_last()).insert(s.last().0@, s.last().1)
    }
}

/// No two entries carry the same key.
pub open spec fn entries_wf(s: Seq<(String, Location)>) -> bool {
    forall|i: int, j: int| 0 <= i < j < s.len() ==> s[i].0@ != s[j].0@
}

/// The key index: an association list from key to [`Location`], viewed as
/// a map.  Keys are unique.
pub struct KeyIndex {
    pub entries: Vec<(String, Location)>,
}

impl View for KeyIndex {
    type V = Map<Seq<char>, Location>;

    open spec fn view(&self) -> Map<Seq<char>, Location> {
        entries_map(self.entries@)
    }
}

/// An entry of a well-formed list is in the denoted map, with its value.
pub proof fn lemma_entries_map_has(s: Seq<(String, Location)>, i: int)
    requires
        entries_wf(s),
        0 <= i < s.len(),
    ensures
        entries_map(s).contains_key(s[i].0@),
        entries_map(s)[s[i].0@] == s[i].1,
    decreases s.len(),
{
    if i == s.len() - 1 {
    } else {
        assert(s.drop_last()[i] == s[i]);
        lemma_entries_map_has(s.drop_last(), i);
        assert(s.last().0@ != s[i].0@);
    }
}

/// A key that no entry carries is not in the denoted map.
pub proof fn lemma_entries_map_absent(s: Seq<(String, Location)>, k: Seq<char>)
    requires
        forall|i: int| 0 <= i < s.len() ==> s[i].0@ != k,
    ensures
        !entries_map(s).contains_key(k),
    decreases s.len(),
{
    if s.len() > 0 {
        assert(forall|i: int|
            0 <= i < s.drop_last().len() ==> #[trigger] s.drop_last()[i].0@ == s[i].0@);
        lemma_entries_map_absent(s.drop_last(), k);
    }
}

/// Every key of the denoted map is carried by some entry.
pub proof fn lemma_entries_map_covered(s: Seq<(String, Location)>, k: Seq<char>)
    requires
        entries_map(s).contains_key(k),
    ensures
        exists|i: int| 0 <= i < s.len() && #[trigger] s[i].0@ == k,
    decreases s.len(),
{
    if s.len() > 0 {
        if s.last().0@ == k {
            assert(s[s.len() - 1].0@ == k);
        } else {
            lemma_entries_map_covered(s.drop_last(), k);
            let i = choose|i: int| 0 <= i < s.drop_last().len() && #[trigger] s.drop_last()[i].0@
                == k;
            assert(s[i].0@ == k);
        }
    }
}

/// Replacing the entry that carries a key denotes a map `insert` of the
/// new value at that key.
pub proof fn lemma_entries_map_update(s: Seq<(String, Location)>, i: int, e: (String, Location))
    requires
        entries_wf(s),
        0 <= i < s.len(),
        e.0@ == s[i].0@,
    ensures
        entries_map(s.update(i, e)) == entries_map(s).insert(e.0@, e.1),
        entries_wf(s.update(i, e)),
    decreases s.len(),
{
    let su = s.update(i, e);
    assert(entries_wf(su));
    if i == s.len() - 1 {
        assert(su.drop_last() =~= s.drop_last());
        assert(su.last() == e);
        assert(entries_map(su) == entries_map(s.drop_last()).insert(e.0@, e.1));
        assert(entries_map(s.drop_last()).insert(s.last().0@, s.last().1).insert(e.0@, e.1)
            =~= entries_map(s.drop_last()).insert(e.0@, e.1));
    } else {
        assert(su.drop_last() =~= s.drop_last().update(i, e));
        assert(su.last() == s.last());
        assert(s.drop_last()[i] == s[i]);
        lemma_entries_map_update(s.drop_last(), i, e);
        assert(s.last().0@ != e.0@);
        assert(entries_map(s.drop_last()).insert(e.0@, e.1).insert(s.last().0@, s.last().1)
            =~= entries_map(s.drop_last()).insert(s.last().0@, s.last().1).insert(e.0@, e.1));
    }
}

/// Removing the entry that carries a key denotes a map `remove` of that
/// key.
pub proof fn lemma_entries_map_remove(s: Seq<(String, Location)>, i: int)
    requires
        entries_wf(s),
        0 <= i < s.len(),
    ensures
        entries_map(s.remove(i)) == entries_map(s).remove(s[i].0@),
        entries_wf(s.remove(i)),
    decreases s.len(),
{
    let sr = s.remove(i);
    assert(forall|a: int| 0 <= a < i ==> sr[a] == s[a]);
    assert(forall|a: int| i <= a < sr.len() ==> sr[a] == s[a + 1]);
    assert(entries_wf(sr));
    if i == s.len() - 1 {
        assert(sr =~= s.drop_last());
        assert(forall|a: int| 0 <= a < s.len() - 1 ==> s[a].0@ != s[i].0@);
        assert(forall|a: int|
            0 <= a < s.drop_last().len() ==> #[trigger] s.drop_last()[a].0@ == s[a].0@);
        lemma_entries_map_absent(s.drop_last(), s[i].0@);
        assert(entries_map(s.drop_last()).insert(s.last().0@, s.last().1).remove(s[i].0@)
            =~= entries_map(s.drop_last()));
    } else {
        assert(sr.drop_last() =~= s.drop_last().remove(i));
        assert(sr.last() == s.last());
        assert(s.drop_last()[i] == s[i]);
        lemma_entries_map_remove(s.drop_last(), i);
        assert(s.last().0@ != s[i].0@);
        assert(entries_map(s.drop_last()).remove(s[i].0@).insert(s.last().0@, s.last().1)
            =~= entries_map(s.drop_last()).insert(s.last().0@, s.last().1).remove(s[i].0@));
    }
}

impl KeyIndex {
    /// Keys are unique among the entries.
    pub open spec fn wf(self) -> bool {
        entries_wf(self.entries@)
    }

    /// A fresh, empty index.
    pub fn new() -> (r: Self)
        ensures
            r.wf(),
            r@ == Map::<Seq<char>, Location>::empty(),
            r.entries@.len() == 0,
    {
        KeyIndex { entries: Vec::new() }
    }

    /// The number of keys in the index.
    pub fn num_entries(&self) -> (r: usize)
        ensures
            r == self.entries@.len(),
    {
        self.entries.len()
    }

    /// Look a key up.
    pub fn get(&self, key: &String) -> (r: Option<Location>)
        requires
            self.wf(),
        ensures
            match r {
                Some(loc) => self@.contains_key(key@) && self@[key@] == loc,
                None => !self@.contains_key(key@),
            },
    {
        let n = self.entries.len();
        let mut i: usize = 0;
        while i < n
            invariant
                n == self.entries@.len(),
                i <= n,
                entries_wf(self.entries@),
                forall|j: int| 0 <= j < i ==> self.entries@[j].0@ != key@,
            decreases n - i,
        {
            if self.entries[i].0.eq(key) {
                proof {
                    lemma_entries_map_has(self.entries@, i as int);
                }
                return Some(self.entries[i].1);
            }
            i = i + 1;
        }
        proof {
            lemma_entries_map_absent(self.entries@, key@);
        }
        None
    }

    /// Point a key at a new location, returning the location it pointed
    /// at before, if any.
    pub fn insert(&mut self, key: String, loc: Location) -> (prev: Option<Location>)
        requires
            old(self).wf(),
        ensures
            final(self).wf(),
            final(self)@ == old(self)@.insert(key@, loc),
            match prev {
                Some(p) => old(self)@.contains_key(key@) && old(self)@[key@] == p && exists|i: int|
                    0 <= i < old(self).entries@.len() && #[trigger] old(self).entries@[i].0@ == key@
                        && old(self).entries@[i].1 == p && final(self).entries@ == old(
                        self,
                    ).entries@.update(i, (key, loc)),
                None => !old(self)@.contains_key(key@) && final(self).entries@ == old(
                    self,
                ).entries@.push((key, loc)),
            },
    {
        let n = self.entries.len();
        let mut i: usize = 0;
        while i < n
            invariant
                *self == *old(self),
                n == self.entries@.len(),
                i <= n,
                entries_wf(self.entries@),
                forall|j: int| 0 <= j < i ==> self.entries@[j].0@ != key@,
            decreases n - i,
        {
            if self.entries[i].0.eq(&key) {
                let p = self.entries[i].1;
                proof {
                    lemma_entries_map_has(self.entries@, i as int);
                    lemma_entries_map_update(self.entries@, i as int, (key, loc));
                }
                let ghost old_entries = self.entries@;
                self.entries[i] = (key, loc);
                proof {
                    assert(self.entries@ == old_entries.update(i as int, (key, loc)));
                }
                return Some(p);
            }
            i = i + 1;
        }
        proof {
            lemma_entries_map_absent(self.entries@, key@);
        }
        self.entries.push((key, loc));
        proof {
            assert(self.entries@.drop_last() =~= old(self).entries@);
            assert(entries_wf(self.entries@));
        }
        None
    }

    /// Erase a key, returning the location it pointed at, if any.
    pub fn remove(&mut self, key: &String) -> (prev: Option<Location>)
        requires
            old(self).wf(),
        ensures
            final(self).wf(),
            final(self)@ == old(self)@.remove(key@),
            match prev {
                Some(p) => old(self)@.contains_key(key@) && old(self)@[key@] == p && exists|i: int|
                    0 <= i < old(self).entries@.len() && #[trigger] old(self).entries@[i].0@ == key@
                        && old(self).entries@[i].1 == p && final(self).entries@ == old(
                        self,
                    ).entries@.remove(i),
                None => !old(self)@.contains_key(key@) && *final(self) == *old(self),
            },
    {
        let n = self.entries.len();
        let mut i: usize = 0;
        while i < n
            invariant
                *self == *old(self),
                n == self.entries@.len(),
                i <= n,
                entries_wf(self.entries@),
                forall|j: int| 0 <= j < i ==> self.entries@[j].0@ != key@,
            decreases n - i,
        {
            if self.entries[i].0.eq(key) {
                let p = self.entries[i].1;
                proof {
                    lemma_entries_map_has(self.entries@, i as int);
                    lemma_entries_map_remove(self.entries@, i as int);
                }
                self.entries.remove(i);
                return Some(p);
            }
            i = i + 1;
        }
        proof {
            lemma_entries_map_absent(self.entries@, key@);
            assert(old(self)@.remove(key@) =~= old(self)@);
        }
        None
    }

    /// Read the entry at a position, for iteration.
    pub fn entry_at(&self, i: usize) -> (r: (String, Location))
        requires
            i < self.entries@.len(),
        ensures
            r.0@ == self.entries@[i as int].0@,
            r.1 == self.entries@[i as int].1,
    {
        let e = &self.entries[i];
        (e.0.clone(), e.1)
    }
}

} // verus!
