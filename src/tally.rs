use vstd::prelude::*;

verus! {

/// A small map from string keys to values, kept as a list of entries with
/// unique keys.
pub struct Tally<V> {
    entries: Vec<(String, V)>,
}

pub open spec fn lookup<V>(entries: Seq<(String, V)>, key: Seq<char>) -> Option<V>
    decreases entries.len(),
{
    if entries.len() == 0 {
        None
    } else if entries.last().0@ == key {
        Some(entries.last().1)
    } else {
        lookup(entries.drop_last(), key)
    }
}

proof fn lemma_lookup_at<V>(s: Seq<(String, V)>, i: int)
    requires
        0 <= i < s.len(),
        forall|a: int, b: int| 0 <= a < b < s.len() ==> s[a].0@ != s[b].0@,
    ensures
        lookup(s, s[i].0@) == Some(s[i].1),
    decreases s.len(),
{
    if i < s.len() - 1 {
        assert(s.drop_last()[i] == s[i]);
        lemma_lookup_at(s.drop_last(), i);
    }
}

proof fn lemma_lookup_absent<V>(s: Seq<(String, V)>, key: Seq<char>)
    requires
        forall|a: int| 0 <= a < s.len() ==> s[a].0@ != key,
    ensures
        lookup(s, key) is None,
    decreases s.len(),
{
    if s.len() > 0 {
        lemma_lookup_absent(s.drop_last(), key);
    }
}

proof fn lemma_lookup_update<V>(s: Seq<(String, V)>, i: int, e: (String, V), key: Seq<char>)
    requires
        0 <= i < s.len(),
        s[i].0@ == e.0@,
        key != e.0@,
    ensures
        lookup(s.update(i, e), key) == lookup(s, key),
    decreases s.len(),
{
    if i < s.len() - 1 {
        assert(s.update(i, e).drop_last() =~= s.drop_last().update(i, e));
        lemma_lookup_update(s.drop_last(), i, e, key);
    } else {
        assert(s.update(i, e).drop_last() =~= s.drop_last());
    }
}

impl<V: Copy> Tally<V> {
    pub closed spec fn get_spec(&self, key: Seq<char>) -> Option<V> {
        lookup(self.entries@, key)
    }

    pub closed spec fn wf(&self) -> bool {
        forall|a: int, b: int| 0 <= a < b < self.entries@.len() ==> self.entries@[a].0@ != self.entries@[b].0@
    }

    pub fn new() -> (t: Tally<V>)
        ensures
            t.wf(),
            forall|k: Seq<char>| #[trigger] t.get_spec(k) is None,
    {
        Tally { entries: Vec::new() }
    }

    fn find(&self, key: &String) -> (r: Option<usize>)
        ensures
            r matches Some(i) ==> i < self.entries@.len() && self.entries@[i as int].0@ == key@,
            r is None ==> forall|a: int| 0 <= a < self.entries@.len() ==> self.entries@[a].0@ != key@,
    {
        let mut i: usize = 0;
        while i < self.entries.len()
            invariant
                0 <= i <= self.entries@.len(),
                forall|a: int| 0 <= a < i ==> self.entries@[a].0@ != key@,
            decreases self.entries@.len() - i,
        {
            if self.entries[i].0 == *key {
                return Some(i);
            }
            i = i + 1;
        }
        None
    }

    pub fn get(&self, key: &String) -> (r: Option<V>)
        requires
            self.wf(),
        ensures
            r == self.get_spec(key@),
    {
        match self.find(key) {
            Some(i) => {
                proof { lemma_lookup_at(self.entries@, i as int); }
                Some(self.entries[i].1)
            },
            None => {
                proof { lemma_lookup_absent(self.entries@, key@); }
                None
            },
        }
    }

    pub fn set(&mut self, key: String, value: V)
        requires
            old(self).wf(),
        ensures
            final(self).wf(),
            final(self).get_spec(key@) == Some(value),
            forall|k: Seq<char>| k != key@ ==> #[trigger] final(self).get_spec(k) == old(self).get_spec(k),
    {
        match self.find(&key) {
            Some(i) => {
                let ghost e = (key, value);
                let ghost before = self.entries@;
                self.entries.set(i, (key, value));
                proof {
                    assert(self.entries@ == before.update(i as int, e));
                    lemma_lookup_at(self.entries@, i as int);
                    assert forall|k: Seq<char>| k != e.0@ implies #[trigger] lookup(self.entries@, k) == lookup(before, k) by {
                        lemma_lookup_update(before, i as int, e, k);
                    }
                }
            },
            None => {
                let ghost before = self.entries@;
                self.entries.push((key, value));
                proof {
                    assert(self.entries@.drop_last() =~= before);
                    assert forall|k: Seq<char>| k != key@ implies #[trigger] lookup(self.entries@, k) == lookup(before, k) by {}
                }
            },
        }
    }
}

} // verus!
