use vstd::prelude::*;

use crate::names::str_eq;

verus! {

/// The abstract contents of an association list: the finite map from key to
/// value. A later entry of the same key overrides an earlier one; a
/// well-formed table never holds two entries of one key.
pub open spec fn assoc_map<V>(s: Seq<(Seq<char>, V)>) -> Map<Seq<char>, V>
    decreases s.len(),
{
    if s.len() == 0 {
        Map::empty()
    } else {
        assoc_map(s.drop_last()).insert(s.last().0, s.last().1)
    }
}

/// A key is held by some entry of the list.
pub open spec fn assoc_holds<V>(s: Seq<(Seq<char>, V)>, key: Seq<char>) -> bool {
    exists|i: int| 0 <= i < s.len() && s[i].0 == key
}

pub proof fn lemma_assoc_dom<V>(s: Seq<(Seq<char>, V)>, key: Seq<char>)
    ensures
        assoc_map(s).contains_key(key) <==> assoc_holds(s, key),
    decreases s.len(),
{
    if s.len() > 0 {
        lemma_assoc_dom(s.drop_last(), key);
        if s.last().0 == key {
            assert(s[s.len() - 1].0 == key);
        } else {
            if assoc_holds(s, key) {
                let i = choose|i: int| 0 <= i < s.len() && s[i].0 == key;
                assert(s.drop_last()[i] == s[i]);
            }
            if assoc_holds(s.drop_last(), key) {
                let i = choose|i: int| 0 <= i < s.drop_last().len() && s.drop_last()[i].0 == key;
                assert(s[i].0 == key);
            }
        }
    }
}

pub proof fn lemma_assoc_index<V>(s: Seq<(Seq<char>, V)>, i: int)
    requires
        s.map_values(|p: (Seq<char>, V)| p.0).no_duplicates(),
        0 <= i < s.len(),
    ensures
        assoc_map(s).contains_key(s[i].0),
        assoc_map(s)[s[i].0] == s[i].1,
    decreases s.len(),
{
    let keys = s.map_values(|p: (Seq<char>, V)| p.0);
    if i < s.len() - 1 {
        assert(s.drop_last().map_values(|p: (Seq<char>, V)| p.0) =~= keys.drop_last());
        lemma_assoc_index(s.drop_last(), i);
        assert(keys[i] != keys[s.len() - 1]);
    }
}

pub proof fn lemma_assoc_remove<V>(s: Seq<(Seq<char>, V)>, i: int)
    requires
        s.map_values(|p: (Seq<char>, V)| p.0).no_duplicates(),
        0 <= i < s.len(),
    ensures
        assoc_map(s.remove(i)) == assoc_map(s).remove(s[i].0),
    decreases s.len(),
{
    let keys = s.map_values(|p: (Seq<char>, V)| p.0);
    if i == s.len() - 1 {
        assert(s.remove(i) =~= s.drop_last());
        lemma_assoc_dom(s.drop_last(), s[i].0);
        assert(!assoc_holds(s.drop_last(), s[i].0)) by {
            if assoc_holds(s.drop_last(), s[i].0) {
                let j = choose|j: int| 0 <= j < s.drop_last().len() && s.drop_last()[j].0 == s[i].0;
                assert(keys[j] == keys[i]);
            }
        }
        assert(assoc_map(s.drop_last()) =~= assoc_map(s).remove(s[i].0));
    } else {
        assert(s.drop_last().map_values(|p: (Seq<char>, V)| p.0) =~= keys.drop_last());
        lemma_assoc_remove(s.drop_last(), i);
        assert(s.remove(i).drop_last() =~= s.drop_last().remove(i));
        assert(s.remove(i).last() == s.last());
        assert(keys[i] != keys[s.len() - 1]);
        assert(assoc_map(s.remove(i)) == assoc_map(s.drop_last().remove(i)).insert(
            s.last().0,
            s.last().1,
        ));
        assert(assoc_map(s).remove(s[i].0) =~= assoc_map(s.drop_last()).remove(s[i].0).insert(
            s.last().0,
            s.last().1,
        ));
    }
}

pub proof fn lemma_assoc_update<V>(s: Seq<(Seq<char>, V)>, i: int, p: (Seq<char>, V))
    requires
        s.map_values(|q: (Seq<char>, V)| q.0).no_duplicates(),
        0 <= i < s.len(),
        p.0 == s[i].0,
    ensures
        assoc_map(s.update(i, p)) == assoc_map(s).insert(p.0, p.1),
    decreases s.len(),
{
    let keys = s.map_values(|q: (Seq<char>, V)| q.0);
    if i == s.len() - 1 {
        assert(s.update(i, p).drop_last() =~= s.drop_last());
        assert(s.update(i, p).last() == p);
    } else {
        assert(s.drop_last().map_values(|q: (Seq<char>, V)| q.0) =~= keys.drop_last());
        lemma_assoc_update(s.drop_last(), i, p);
        assert(s.update(i, p).drop_last() =~= s.drop_last().update(i, p));
        assert(s.update(i, p).last() == s.last());
        assert(keys[i] != keys[s.len() - 1]);
        assert(assoc_map(s.update(i, p)) == assoc_map(s.drop_last()).insert(p.0, p.1).insert(
            s.last().0,
            s.last().1,
        ));
        assert(assoc_map(s).insert(p.0, p.1) =~= assoc_map(s.drop_last()).insert(p.0, p.1).insert(
            s.last().0,
            s.last().1,
        ));
    }
}

/// A table from string keys to copyable values, with each key held once.
pub struct StrTable<V> {
    entries: Vec<(String, V)>,
}

impl<V: Copy> StrTable<V> {
    /// The entries as key-view / value pairs.
    pub closed spec fn pairs(self) -> Seq<(Seq<char>, V)> {
        self.entries@.map_values(|p: (String, V)| (p.0@, p.1))
    }

    /// Keys are unique within the table.
    pub open spec fn wf(self) -> bool {
        self.pairs().map_values(|p: (Seq<char>, V)| p.0).no_duplicates()
    }

    /// The table as a map from key to value.
    pub open spec fn view(self) -> Map<Seq<char>, V> {
        assoc_map(self.pairs())
    }

    pub fn new() -> (r: StrTable<V>)
        ensures
            r.wf(),
            r.view() == Map::<Seq<char>, V>::empty(),
    {
        StrTable { entries: Vec::new() }
    }

    /// Finds the position of the entry with the given key, if any.
    fn position_of(&self, key: &str) -> (r: Option<usize>)
        ensures
            match r {
                Some(i) => i < self.pairs().len() && self.pairs()[i as int].0 == key@,
                None => !assoc_holds(self.pairs(), key@),
            },
    {
        let mut i: usize = 0;
        while i < self.entries.len()
            invariant
                i <= self.entries@.len(),
                forall|j: int| 0 <= j < i ==> self.pairs()[j].0 != key@,
            decreases self.entries@.len() - i,
        {
            if str_eq(self.entries[i].0.as_str(), key) {
                return Some(i);
            }
            i = i + 1;
        }
        None
    }

    /// Returns the value stored under the key, if any.
    pub fn get(&self, key: &str) -> (r: Option<V>)
        requires
            self.wf(),
        ensures
            match r {
                Some(v) => self.view().contains_key(key@) && self.view()[key@] == v,
                None => !self.view().contains_key(key@),
            },
    {
        proof {
            lemma_assoc_dom(self.pairs(), key@);
        }
        match self.position_of(key) {
            Some(i) => {
                proof {
                    lemma_assoc_index(self.pairs(), i as int);
                }
                Some(self.entries[i].1)
            },
            None => None,
        }
    }

    /// Stores the value under the key, returning the value it replaces, if
    /// any.
    pub fn insert(&mut self, key: &str, value: V) -> (r: Option<V>)
        requires
            old(self).wf(),
        ensures
            final(self).wf(),
            final(self).view() == old(self).view().insert(key@, value),
            match r {
                Some(v) => old(self).view().contains_key(key@) && old(self).view()[key@] == v,
                None => !old(self).view().contains_key(key@),
            },
    {
        proof {
            lemma_assoc_dom(self.pairs(), key@);
        }
        match self.position_of(key) {
            Some(i) => {
                proof {
                    lemma_assoc_index(self.pairs(), i as int);
                    lemma_assoc_update(self.pairs(), i as int, (key@, value));
                }
                let prev = self.entries[i].1;
                let owned = key.to_owned();
                proof {
                    let ghost newpairs = self.pairs().update(i as int, (key@, value));
                    assert(self.entries@.update(i as int, (owned, value)).map_values(
                        |p: (String, V)| (p.0@, p.1),
                    ) =~= newpairs);
                    assert(newpairs.map_values(|p: (Seq<char>, V)| p.0) =~= self.pairs().map_values(
                        |p: (Seq<char>, V)| p.0,
                    ));
                }
                self.entries.set(i, (owned, value));
                Some(prev)
            },
            None => {
                let owned = key.to_owned();
                proof {
                    let ghost oldpairs = self.pairs();
                    assert(self.entries@.push((owned, value)).map_values(
                        |p: (String, V)| (p.0@, p.1),
                    ) =~= oldpairs.push((key@, value)));
                    assert(oldpairs.push((key@, value)).drop_last() =~= oldpairs);
                    assert(oldpairs.push((key@, value)).map_values(|p: (Seq<char>, V)| p.0)
                        =~= oldpairs.map_values(|p: (Seq<char>, V)| p.0).push(key@));
                }
                self.entries.push((owned, value));
                None
            },
        }
    }

    /// Removes the entry under the key, returning its value if one was held.
    /// Missing keys are accepted: removal is idempotent.
    pub fn remove(&mut self, key: &str) -> (r: Option<V>)
        requires
            old(self).wf(),
        ensures
            final(self).wf(),
            final(self).view() == old(self).view().remove(key@),
            match r {
                Some(v) => old(self).view().contains_key(key@) && old(self).view()[key@] == v,
                None => !old(self).view().contains_key(key@),
            },
    {
        proof {
            lemma_assoc_dom(self.pairs(), key@);
        }
        match self.position_of(key) {
            Some(i) => {
                proof {
                    lemma_assoc_index(self.pairs(), i as int);
                    lemma_assoc_remove(self.pairs(), i as int);
                    let ghost keys = self.pairs().map_values(|p: (Seq<char>, V)| p.0);
                    assert(self.entries@.remove(i as int).map_values(|p: (String, V)| (p.0@, p.1))
                        =~= self.pairs().remove(i as int));
                    assert(self.pairs().remove(i as int).map_values(|p: (Seq<char>, V)| p.0)
                        =~= keys.remove(i as int));
                    broadcast use vstd::seq_lib::group_to_multiset_ensures;

                    keys.lemma_multiset_has_no_duplicates();
                    keys.remove(i as int).lemma_multiset_has_no_duplicates_conv();
                }
                let prev = self.entries.remove(i).1;
                Some(prev)
            },
            None => {
                proof {
                    assert(self.view() =~= self.view().remove(key@));
                }
                None
            },
        }
    }
}

} // verus!
