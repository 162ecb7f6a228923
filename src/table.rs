use vstd::prelude::*;
use crate::service::{RegisteredService, ServiceFilter};

verus! {

/// A key of up to two names and a partition number. Tables keyed by one
/// name leave the scope empty and the partition zero.
pub struct Key {
    pub name: String,
    pub scope: String,
    pub partition: u32,
}

pub type KeyView = (Seq<char>, Seq<char>, u32);

impl Key {
    pub open spec fn view(&self) -> KeyView {
        (self.name@, self.scope@, self.partition)
    }

    pub fn named(name: String) -> (k: Key)
        ensures
            k.view() == (name@, Seq::<char>::empty(), 0u32),
    {
        Key { name, scope: String::new(), partition: 0 }
    }

    pub fn scoped(name: String, scope: String) -> (k: Key)
        ensures
            k.view() == (name@, scope@, 0u32),
    {
        Key { name, scope, partition: 0 }
    }

    pub fn same(&self, o: &Key) -> (r: bool)
        ensures
            r == (self.view() == o.view()),
    {
        self.name == o.name && self.scope == o.scope && self.partition == o.partition
    }
}

/// A map from keys to values, kept as a list of entries with unique keys.
pub struct Table<V> {
    entries: Vec<(Key, V)>,
}

pub open spec fn find_in<V>(s: Seq<(Key, V)>, k: KeyView) -> Option<V>
    decreases s.len(),
{
    if s.len() == 0 {
        None
    } else if s.last().0.view() == k {
        Some(s.last().1)
    } else {
        find_in(s.drop_last(), k)
    }
}

pub open spec fn unique_keys<V>(s: Seq<(Key, V)>) -> bool {
    forall|a: int, b: int| 0 <= a < b < s.len() ==> s[a].0.view() != s[b].0.view()
}

proof fn lemma_find_at<V>(s: Seq<(Key, V)>, i: int)
    requires
        0 <= i < s.len(),
        unique_keys(s),
    ensures
        find_in(s, s[i].0.view()) == Some(s[i].1),
    decreases s.len(),
{
    if i < s.len() - 1 {
        assert(s.drop_last()[i] == s[i]);
        lemma_find_at(s.drop_last(), i);
    }
}

proof fn lemma_find_absent<V>(s: Seq<(Key, V)>, k: KeyView)
    requires
        forall|a: int| 0 <= a < s.len() ==> s[a].0.view() != k,
    ensures
        find_in(s, k) is None,
    decreases s.len(),
{
    if s.len() > 0 {
        lemma_find_absent(s.drop_last(), k);
    }
}

/// Where the key of `k` is unique in `s`, dropping the entry at `i` only
/// loses that key.
proof fn lemma_find_remove<V>(s: Seq<(Key, V)>, i: int, k: KeyView)
    requires
        0 <= i < s.len(),
        unique_keys(s),
        k != s[i].0.view(),
    ensures
        find_in(s.remove(i), k) == find_in(s, k),
    decreases s.len(),
{
    if i < s.len() - 1 {
        assert(s.remove(i).drop_last() =~= s.drop_last().remove(i));
        assert(s.remove(i).last() == s.last());
        lemma_find_remove(s.drop_last(), i, k);
    } else {
        assert(s.remove(i) =~= s.drop_last());
    }
}

/// The entries of `s` whose scope is not `scope`, in order.
pub open spec fn drop_scope<V>(s: Seq<(Key, V)>, scope: Seq<char>) -> Seq<(Key, V)>
    decreases s.len(),
{
    if s.len() == 0 {
        s
    } else if s.last().0.scope@ == scope {
        drop_scope(s.drop_last(), scope)
    } else {
        drop_scope(s.drop_last(), scope).push(s.last())
    }
}

proof fn lemma_drop_scope<V>(s: Seq<(Key, V)>, scope: Seq<char>)
    requires
        unique_keys(s),
    ensures
        unique_keys(drop_scope(s, scope)),
        forall|j: int| 0 <= j < drop_scope(s, scope).len() ==> exists|a: int| 0 <= a < s.len() && s[a] == #[trigger] drop_scope(s, scope)[j],
        forall|q: KeyView| #[trigger] find_in(drop_scope(s, scope), q) == if q.1 == scope { None } else { find_in(s, q) },
    decreases s.len(),
{
    if s.len() > 0 {
        let p = s.drop_last();
        assert(unique_keys(p));
        lemma_drop_scope(p, scope);
        let d = drop_scope(p, scope);
        assert forall|j: int| 0 <= j < d.len() implies exists|a: int| 0 <= a < s.len() && s[a] == #[trigger] d[j] by {
            let a = choose|a: int| 0 <= a < p.len() && p[a] == d[j];
            assert(s[a] == p[a]);
        }
        if s.last().0.scope@ == scope {
            assert forall|q: KeyView| #[trigger] find_in(drop_scope(s, scope), q) == if q.1 == scope { None } else { find_in(s, q) } by {
                assert(find_in(d, q) == if q.1 == scope { None } else { find_in(p, q) });
            }
        } else {
            let n = d.push(s.last());
            assert(n.drop_last() =~= d);
            assert forall|j: int| 0 <= j < n.len() implies exists|a: int| 0 <= a < s.len() && s[a] == #[trigger] n[j] by {
                if j < d.len() {
                    assert(n[j] == d[j]);
                } else {
                    assert(s[s.len() - 1] == n[j]);
                }
            }
            assert forall|a: int, b: int| 0 <= a < b < n.len() implies n[a].0.view() != n[b].0.view() by {
                if b == d.len() {
                    assert(n[a] == d[a]);
                    let x = choose|x: int| 0 <= x < p.len() && p[x] == #[trigger] d[a];
                    assert(s[x] == p[x]);
                } else {
                    assert(n[a] == d[a] && n[b] == d[b]);
                }
            }
            assert forall|q: KeyView| #[trigger] find_in(n, q) == if q.1 == scope { None } else { find_in(s, q) } by {
                assert(find_in(d, q) == if q.1 == scope { None } else { find_in(p, q) });
            }
        }
    }
}

/// The services of `s` renewed at or after `cutoff`, in order.
pub open spec fn drop_expired(s: Seq<(Key, RegisteredService)>, cutoff: u64) -> Seq<(Key, RegisteredService)>
    decreases s.len(),
{
    if s.len() == 0 {
        s
    } else if s.last().1.lease_renewed_at < cutoff {
        drop_expired(s.drop_last(), cutoff)
    } else {
        drop_expired(s.drop_last(), cutoff).push(s.last())
    }
}

/// What a lookup finds once services renewed before `cutoff` are gone.
pub open spec fn unexpired(found: Option<RegisteredService>, cutoff: u64) -> Option<RegisteredService> {
    match found {
        Some(v) => if v.lease_renewed_at < cutoff { None } else { Some(v) },
        None => None,
    }
}

proof fn lemma_drop_expired(s: Seq<(Key, RegisteredService)>, cutoff: u64)
    requires
        unique_keys(s),
    ensures
        unique_keys(drop_expired(s, cutoff)),
        forall|j: int| 0 <= j < drop_expired(s, cutoff).len() ==> exists|a: int| 0 <= a < s.len() && s[a] == #[trigger] drop_expired(s, cutoff)[j],
        forall|q: KeyView| #[trigger] find_in(drop_expired(s, cutoff), q) == unexpired(find_in(s, q), cutoff),
    decreases s.len(),
{
    if s.len() > 0 {
        let p = s.drop_last();
        assert(unique_keys(p));
        lemma_drop_expired(p, cutoff);
        let d = drop_expired(p, cutoff);
        let last = s.last();
        assert(forall|a: int| 0 <= a < p.len() ==> p[a].0.view() != last.0.view()) by {
            assert forall|a: int| 0 <= a < p.len() implies p[a].0.view() != last.0.view() by {
                assert(p[a] == s[a]);
                assert(last == s[s.len() - 1]);
            }
        }
        lemma_find_absent(p, last.0.view());
        assert forall|j: int| 0 <= j < d.len() implies exists|a: int| 0 <= a < s.len() && s[a] == #[trigger] d[j] by {
            let a = choose|a: int| 0 <= a < p.len() && p[a] == d[j];
            assert(s[a] == p[a]);
        }
        if last.1.lease_renewed_at < cutoff {
            assert forall|q: KeyView| #[trigger] find_in(drop_expired(s, cutoff), q) == unexpired(find_in(s, q), cutoff) by {
                assert(find_in(d, q) == unexpired(find_in(p, q), cutoff));
            }
        } else {
            let n = d.push(last);
            assert(n.drop_last() =~= d);
            assert forall|j: int| 0 <= j < n.len() implies exists|a: int| 0 <= a < s.len() && s[a] == #[trigger] n[j] by {
                if j < d.len() {
                    assert(n[j] == d[j]);
                } else {
                    assert(s[s.len() - 1] == n[j]);
                }
            }
            assert forall|a: int, b: int| 0 <= a < b < n.len() implies n[a].0.view() != n[b].0.view() by {
                if b == d.len() {
                    assert(n[a] == d[a]);
                    let x = choose|x: int| 0 <= x < p.len() && p[x] == #[trigger] d[a];
                    assert(s[x] == p[x]);
                } else {
                    assert(n[a] == d[a] && n[b] == d[b]);
                }
            }
            assert forall|q: KeyView| #[trigger] find_in(n, q) == unexpired(find_in(s, q), cutoff) by {
                assert(find_in(d, q) == unexpired(find_in(p, q), cutoff));
            }
        }
    }
}

impl<V> Table<V> {
    pub closed spec fn wf(&self) -> bool {
        unique_keys(self.entries@)
    }

    pub closed spec fn view(&self) -> Map<KeyView, V> {
        Map::new(|k: KeyView| find_in(self.entries@, k) is Some, |k: KeyView| find_in(self.entries@, k).unwrap())
    }

    pub fn new() -> (t: Table<V>)
        ensures
            t.wf(),
            t.view() == Map::<KeyView, V>::empty(),
    {
        let t = Table { entries: Vec::new() };
        assert(t.view() =~= Map::<KeyView, V>::empty());
        t
    }

    fn position(&self, k: &Key) -> (r: Option<usize>)
        ensures
            r matches Some(i) ==> i < self.entries@.len() && self.entries@[i as int].0.view() == k.view(),
            r is None ==> forall|a: int| 0 <= a < self.entries@.len() ==> self.entries@[a].0.view() != k.view(),
    {
        let mut i: usize = 0;
        while i < self.entries.len()
            invariant
                0 <= i <= self.entries@.len(),
                forall|a: int| 0 <= a < i ==> self.entries@[a].0.view() != k.view(),
            decreases self.entries@.len() - i,
        {
            if self.entries[i].0.same(k) {
                return Some(i);
            }
            i = i + 1;
        }
        None
    }

    pub fn get(&self, k: &Key) -> (r: Option<&V>)
        requires
            self.wf(),
        ensures
            r matches Some(v) ==> self.view().contains_key(k.view()) && self.view()[k.view()] == *v,
            r is None ==> !self.view().contains_key(k.view()),
    {
        match self.position(k) {
            Some(i) => {
                proof { lemma_find_at(self.entries@, i as int); }
                Some(&self.entries[i].1)
            },
            None => {
                proof { lemma_find_absent(self.entries@, k.view()); }
                None
            },
        }
    }

    /// Removes the entry of `k` and hands its value back.
    pub fn take(&mut self, k: &Key) -> (r: Option<V>)
        requires
            old(self).wf(),
        ensures
            final(self).wf(),
            final(self).view() == old(self).view().remove(k.view()),
            r matches Some(v) ==> old(self).view().contains_key(k.view()) && old(self).view()[k.view()] == v,
            r is None ==> !old(self).view().contains_key(k.view()),
    {
        match self.position(k) {
            Some(i) => {
                let ghost s = self.entries@;
                proof { lemma_find_at(s, i as int); }
                let (_, v) = self.entries.remove(i);
                proof {
                    assert forall|a: int, b: int| 0 <= a < b < self.entries@.len() implies self.entries@[a].0.view() != self.entries@[b].0.view() by {
                        if a < i {
                            if b < i { assert(self.entries@[b] == s[b]); } else { assert(self.entries@[b] == s[b + 1]); }
                        } else {
                            assert(self.entries@[a] == s[a + 1] && self.entries@[b] == s[b + 1]);
                        }
                    }
                    assert forall|q: KeyView| q != k.view() implies find_in(self.entries@, q) == find_in(s, q) by {
                        lemma_find_remove(s, i as int, q);
                    }
                    assert forall|q: KeyView| q == k.view() implies find_in(self.entries@, q) is None by {
                        assert forall|a: int| 0 <= a < self.entries@.len() implies self.entries@[a].0.view() != q by {
                            if a < i { assert(self.entries@[a] == s[a]); } else { assert(self.entries@[a] == s[a + 1]); }
                        }
                        lemma_find_absent(self.entries@, q);
                    }
                    assert(self.view() =~= old(self).view().remove(k.view()));
                }
                Some(v)
            },
            None => {
                proof {
                    lemma_find_absent(self.entries@, k.view());
                    assert(self.view() =~= old(self).view().remove(k.view()));
                }
                None
            },
        }
    }

    /// Drops every entry whose scope is `scope`.
    pub fn remove_scope(&mut self, scope: &String)
        requires
            old(self).wf(),
        ensures
            final(self).wf(),
            forall|q: KeyView| #[trigger] final(self).view().contains_key(q)
                <==> old(self).view().contains_key(q) && q.1 != scope@,
            forall|q: KeyView| #[trigger] final(self).view().contains_key(q) ==> final(self).view()[q] == old(self).view()[q],
    {
        let ghost s = self.entries@;
        let mut kept: Vec<(Key, V)> = Vec::new();
        let mut rest: Vec<(Key, V)> = Vec::new();
        core::mem::swap(&mut rest, &mut self.entries);
        let mut i: usize = 0;
        let n = rest.len();
        assert(s.take(0) =~= Seq::<(Key, V)>::empty());
        while rest.len() > 0
            invariant
                rest@.len() + i == n,
                n == s.len(),
                rest@ == s.skip(i as int),
                kept@ == drop_scope(s.take(i as int), scope@),
            decreases rest@.len(),
        {
            let e = rest.remove(0);
            assert(s.take(i + 1).drop_last() =~= s.take(i as int));
            assert(s.take(i + 1).last() == e);
            if e.0.scope != *scope {
                kept.push(e);
            }
            assert(rest@ =~= s.skip(i + 1));
            i = i + 1;
        }
        assert(s.take(i as int) =~= s);
        self.entries = kept;
        proof {
            lemma_drop_scope(s, scope@);
        }
    }

    /// Sets the value of `k`, replacing any earlier one.
    pub fn insert(&mut self, k: Key, v: V)
        requires
            old(self).wf(),
        ensures
            final(self).wf(),
            final(self).view() == old(self).view().insert(k.view(), v),
    {
        let ghost kv = k.view();
        self.take(&k);
        let ghost mid = self.entries@;
        let ghost midv = self.view();
        self.entries.push((k, v));
        proof {
            assert(self.entries@.drop_last() =~= mid);
            assert(!old(self).view().remove(kv).contains_key(kv));
            assert forall|a: int, b: int| 0 <= a < b < self.entries@.len() implies self.entries@[a].0.view() != self.entries@[b].0.view() by {
                if b == mid.len() {
                    assert(self.entries@[a] == mid[a]);
                    if mid[a].0.view() == kv {
                        lemma_find_at(mid, a);
                    }
                } else {
                    assert(self.entries@[a] == mid[a] && self.entries@[b] == mid[b]);
                }
            }
            assert forall|q: KeyView| q != kv implies find_in(self.entries@, q) == find_in(mid, q) by {}
            assert forall|q: KeyView| q != kv implies (midv.contains_key(q) <==> find_in(mid, q) is Some) by {}
            assert forall|q: KeyView| #[trigger] midv.contains_key(q) implies midv[q] == find_in(mid, q).unwrap() by {}
            assert(midv == old(self).view().remove(kv));
            let nv = self.view();
            let ov = old(self).view().insert(kv, v);
            assert forall|q: KeyView| nv.contains_key(q) <==> ov.contains_key(q) by {
                if q != kv {
                    assert(nv.contains_key(q) == (find_in(mid, q) is Some));
                    assert(midv.contains_key(q) == old(self).view().contains_key(q));
                } else {
                    assert(find_in(self.entries@, q) == Some(v));
                }
            }
            assert forall|q: KeyView| #[trigger] nv.contains_key(q) implies nv[q] == ov[q] by {
                if q != kv {
                    assert(nv[q] == find_in(mid, q).unwrap());
                    assert(midv[q] == old(self).view()[q]);
                } else {
                    assert(find_in(self.entries@, q) == Some(v));
                }
            }
            assert(nv =~= ov);
        }
    }
}

/// `s` is a copy of a service of `m` that `filter` selects.
pub open spec fn is_selected_copy(m: Map<KeyView, RegisteredService>, filter: &ServiceFilter, s: RegisteredService) -> bool {
    exists|q: KeyView| m.contains_key(q) && filter.selects(m[q]) && s.same_as(&m[q])
}

proof fn lemma_find_some<V>(s: Seq<(Key, V)>, q: KeyView)
    requires
        find_in(s, q) is Some,
    ensures
        exists|a: int| 0 <= a < s.len() && s[a].0.view() == q && s[a].1 == find_in(s, q).unwrap(),
    decreases s.len(),
{
    if s.last().0.view() != q {
        lemma_find_some(s.drop_last(), q);
        let a = choose|a: int| 0 <= a < s.drop_last().len() && s.drop_last()[a].0.view() == q && s.drop_last()[a].1 == find_in(s, q).unwrap();
        assert(s[a] == s.drop_last()[a]);
    } else {
        assert(s[s.len() - 1] == s.last());
    }
}

impl Table<RegisteredService> {
    /// Copies of the services that `filter` selects, in no promised order.
    pub fn select(&self, filter: &ServiceFilter) -> (r: Vec<RegisteredService>)
        requires
            self.wf(),
        ensures
            forall|j: int| 0 <= j < r@.len() ==> is_selected_copy(self.view(), filter, #[trigger] r@[j]),
            forall|q: KeyView| #[trigger] self.view().contains_key(q) && filter.selects(self.view()[q])
                ==> exists|j: int| 0 <= j < r@.len() && (#[trigger] r@[j]).same_as(&self.view()[q]),
    {
        let mut out: Vec<RegisteredService> = Vec::new();
        let mut i: usize = 0;
        while i < self.entries.len()
            invariant
                self.wf(),
                0 <= i <= self.entries@.len(),
                forall|j: int| 0 <= j < out@.len() ==> is_selected_copy(self.view(), filter, #[trigger] out@[j]),
                forall|a: int| 0 <= a < i && filter.selects(#[trigger] self.entries@[a].1)
                    ==> exists|j: int| 0 <= j < out@.len() && (#[trigger] out@[j]).same_as(&self.entries@[a].1),
            decreases self.entries@.len() - i,
        {
            proof { lemma_find_at(self.entries@, i as int); }
            let ghost before = out@;
            if filter.test(&self.entries[i].1) {
                let c = self.entries[i].1.duplicate();
                out.push(c);
                proof {
                    let q = self.entries@[i as int].0.view();
                    assert(self.view().contains_key(q));
                    assert(out@[out@.len() - 1].same_as(&self.view()[q]));
                }
            }
            proof {
                assert forall|j: int| 0 <= j < out@.len() implies is_selected_copy(self.view(), filter, #[trigger] out@[j]) by {
                    if j < before.len() {
                        assert(out@[j] == before[j]);
                    } else {
                        let q = self.entries@[i as int].0.view();
                        assert(self.view().contains_key(q));
                        assert(filter.selects(self.view()[q]) && out@[j].same_as(&self.view()[q]));
                    }
                }
                assert forall|a: int| 0 <= a < i + 1 && filter.selects(#[trigger] self.entries@[a].1)
                    implies exists|j: int| 0 <= j < out@.len() && (#[trigger] out@[j]).same_as(&self.entries@[a].1) by {
                    if a < i {
                        let j = choose|j: int| 0 <= j < before.len() && (#[trigger] before[j]).same_as(&self.entries@[a].1);
                        assert(out@[j] == before[j]);
                    } else {
                        assert(out@[out@.len() - 1].same_as(&self.entries@[a].1));
                    }
                }
            }
            i = i + 1;
        }
        proof {
            assert forall|q: KeyView| #[trigger] self.view().contains_key(q) && filter.selects(self.view()[q])
                implies exists|j: int| 0 <= j < out@.len() && (#[trigger] out@[j]).same_as(&self.view()[q]) by {
                lemma_find_some(self.entries@, q);
                let a = choose|a: int| 0 <= a < self.entries@.len() && self.entries@[a].0.view() == q && self.entries@[a].1 == find_in(self.entries@, q).unwrap();
                assert(filter.selects(self.entries@[a].1));
            }
        }
        out
    }

    /// Drops every service whose lease was last renewed before `cutoff`.
    pub fn remove_expired(&mut self, cutoff: u64)
        requires
            old(self).wf(),
        ensures
            final(self).wf(),
            forall|q: KeyView| #[trigger] final(self).view().contains_key(q)
                <==> old(self).view().contains_key(q) && old(self).view()[q].lease_renewed_at >= cutoff,
            forall|q: KeyView| #[trigger] final(self).view().contains_key(q) ==> final(self).view()[q] == old(self).view()[q],
    {
        let ghost s = self.entries@;
        let mut kept: Vec<(Key, RegisteredService)> = Vec::new();
        let mut rest: Vec<(Key, RegisteredService)> = Vec::new();
        core::mem::swap(&mut rest, &mut self.entries);
        let mut i: usize = 0;
        let n = rest.len();
        assert(s.take(0) =~= Seq::<(Key, RegisteredService)>::empty());
        while rest.len() > 0
            invariant
                rest@.len() + i == n,
                n == s.len(),
                rest@ == s.skip(i as int),
                kept@ == drop_expired(s.take(i as int), cutoff),
            decreases rest@.len(),
        {
            let e = rest.remove(0);
            assert(s.take(i + 1).drop_last() =~= s.take(i as int));
            assert(s.take(i + 1).last() == e);
            if e.1.lease_renewed_at >= cutoff {
                kept.push(e);
            }
            assert(rest@ =~= s.skip(i + 1));
            i = i + 1;
        }
        assert(s.take(i as int) =~= s);
        self.entries = kept;
        proof {
            lemma_drop_expired(s, cutoff);
        }
    }
}

} // verus!
