use vstd::prelude::*;

verus! {

/// A record flowing through the router: a type tag and string metadata.
/// The payload is opaque to the core and carried as bytes.
pub struct Record {
    pub record_type: String,
    pub metadata: Vec<(String, String)>,
    pub payload: Vec<u8>,
}

/// The value stored under `key` in an association list: the first entry
/// with that key wins.
pub open spec fn assoc_get(entries: Seq<(String, String)>, key: Seq<char>) -> Option<Seq<char>>
    decreases entries.len(),
{
    if entries.len() == 0 {
        None
    } else if entries[0].0@ == key {
        Some(entries[0].1@)
    } else {
        assoc_get(entries.drop_first(), key)
    }
}

impl Record {
    /// The metadata of the record as a lookup function.
    pub open spec fn meta(&self, key: Seq<char>) -> Option<Seq<char>> {
        assoc_get(self.metadata@, key)
    }

    pub fn new(record_type: String) -> (r: Record)
        ensures
            r.record_type@ == record_type@,
            forall|k: Seq<char>| r.meta(k).is_none(),
    {
        Record { record_type, metadata: Vec::new(), payload: Vec::new() }
    }

    /// Looks up a metadata value by key.
    pub fn get_metadata(&self, key: &String) -> (r: Option<&String>)
        ensures
            match r {
                Some(v) => self.meta(key@) == Some(v@),
                None => self.meta(key@).is_none(),
            },
    {
        let mut i: usize = 0;
        assert(self.metadata@.skip(0) =~= self.metadata@);
        while i < self.metadata.len()
            invariant
                0 <= i <= self.metadata@.len(),
                assoc_get(self.metadata@, key@) == assoc_get(self.metadata@.skip(i as int), key@),
            decreases self.metadata@.len() - i,
        {
            assert(self.metadata@.skip(i as int).drop_first() =~= self.metadata@.skip(i + 1));
            if self.metadata[i].0 == *key {
                return Some(&self.metadata[i].1);
            }
            i = i + 1;
        }
        None
    }

    /// Sets `key` to `value`, replacing an existing entry for that key.
    pub fn set_metadata(&mut self, key: String, value: String)
        ensures
            final(self).meta(key@) == Some(value@),
            forall|k: Seq<char>| k != key@ ==> #[trigger] final(self).meta(k) == old(self).meta(k),
            final(self).record_type == old(self).record_type,
    {
        let mut i: usize = 0;
        while i < self.metadata.len()
            invariant
                0 <= i <= self.metadata@.len(),
                self.metadata@ == old(self).metadata@,
                self.record_type == old(self).record_type,
                forall|j: int| 0 <= j < i ==> self.metadata@[j].0@ != key@,
            decreases self.metadata@.len() - i,
        {
            if self.metadata[i].0 == key {
                let ghost before = self.metadata@;
                self.metadata.set(i, (key, value));
                proof { lemma_assoc_update(before, i as int, self.metadata@[i as int]); }
                return;
            }
            i = i + 1;
        }
        let ghost before = self.metadata@;
        self.metadata.push((key, value));
        proof { lemma_assoc_push(before, self.metadata@[before.len() as int]); }
    }
}

proof fn lemma_assoc_update(s: Seq<(String, String)>, i: int, e: (String, String))
    requires
        0 <= i < s.len(),
        s[i].0@ == e.0@,
        forall|j: int| 0 <= j < i ==> s[j].0@ != e.0@,
    ensures
        assoc_get(s.update(i, e), e.0@) == Some(e.1@),
        forall|k: Seq<char>| k != e.0@ ==> #[trigger] assoc_get(s.update(i, e), k) == assoc_get(s, k),
    decreases s.len(),
{
    if i > 0 {
        assert(s.update(i, e).drop_first() =~= s.drop_first().update(i - 1, e));
        lemma_assoc_update(s.drop_first(), i - 1, e);
        assert forall|k: Seq<char>| k != e.0@ implies #[trigger] assoc_get(s.update(i, e), k) == assoc_get(s, k) by {
            assert(assoc_get(s.drop_first().update(i - 1, e), k) == assoc_get(s.drop_first(), k));
        }
    } else {
        assert forall|k: Seq<char>| k != e.0@ implies #[trigger] assoc_get(s.update(i, e), k) == assoc_get(s, k) by {
            assert(s.update(i, e).drop_first() =~= s.drop_first());
        }
    }
}

proof fn lemma_assoc_push(s: Seq<(String, String)>, e: (String, String))
    requires
        forall|j: int| 0 <= j < s.len() ==> s[j].0@ != e.0@,
    ensures
        assoc_get(s.push(e), e.0@) == Some(e.1@),
        forall|k: Seq<char>| k != e.0@ ==> #[trigger] assoc_get(s.push(e), k) == assoc_get(s, k),
    decreases s.len(),
{
    if s.len() > 0 {
        assert(s.push(e).drop_first() =~= s.drop_first().push(e));
        lemma_assoc_push(s.drop_first(), e);
        assert forall|k: Seq<char>| k != e.0@ implies #[trigger] assoc_get(s.push(e), k) == assoc_get(s, k) by {
            assert(assoc_get(s.drop_first().push(e), k) == assoc_get(s.drop_first(), k));
        }
    } else {
        assert(s.push(e).drop_first() =~= s);
        assert forall|k: Seq<char>| k != e.0@ implies #[trigger] assoc_get(s.push(e), k) == assoc_get(s, k) by {
            assert(assoc_get(s.push(e).drop_first(), k) == assoc_get(s, k));
        }
    }
}

} // verus!
