use vstd::prelude::*;
use crate::buffer::{bumped, BufferedRecord, StageBuffer};

verus! {

/// A table of stage buffers keyed by stage id, kept as a list of entries.
pub type StageTable = Seq<(String, StageBuffer)>;

pub open spec fn keys_unique(st: StageTable) -> bool {
    forall|i: int, j: int| 0 <= i < j < st.len() ==> st[i].0@ != st[j].0@
}

pub open spec fn has_key(st: StageTable, id: Seq<char>) -> bool {
    exists|i: int| 0 <= i < st.len() && st[i].0@ == id
}

/// The records held for stage `id`; empty where the table has no such stage.
pub open spec fn stage_of(st: StageTable, id: Seq<char>) -> Seq<BufferedRecord>
    decreases st.len(),
{
    if st.len() == 0 {
        Seq::empty()
    } else if st.last().0@ == id {
        st.last().1.records@
    } else {
        stage_of(st.drop_last(), id)
    }
}

/// The number of records held over all stages.
pub open spec fn sum_lens(st: StageTable) -> nat
    decreases st.len(),
{
    if st.len() == 0 {
        0
    } else {
        sum_lens(st.drop_last()) + st.last().1.records@.len()
    }
}

/// The number of records from `source` in `rs`.
pub open spec fn count_source(rs: Seq<BufferedRecord>, source: Seq<char>) -> nat
    decreases rs.len(),
{
    if rs.len() == 0 {
        0
    } else {
        count_source(rs.drop_last(), source) + if rs.last().source_id@ == source { 1nat } else { 0nat }
    }
}

/// The number of records from `source` held over all stages.
pub open spec fn sum_source(st: StageTable, source: Seq<char>) -> nat
    decreases st.len(),
{
    if st.len() == 0 {
        0
    } else {
        sum_source(st.drop_last(), source) + count_source(st.last().1.records@, source)
    }
}

pub proof fn lemma_stage_of_at(st: StageTable, i: int)
    requires
        keys_unique(st),
        0 <= i < st.len(),
    ensures
        stage_of(st, st[i].0@) == st[i].1.records@,
    decreases st.len(),
{
    if i < st.len() - 1 {
        assert(st.drop_last()[i] == st[i]);
        lemma_stage_of_at(st.drop_last(), i);
    }
}

pub proof fn lemma_stage_of_absent(st: StageTable, id: Seq<char>)
    requires
        !has_key(st, id),
    ensures
        stage_of(st, id) == Seq::<BufferedRecord>::empty(),
    decreases st.len(),
{
    if st.len() > 0 {
        assert(st.last() == st[st.len() - 1]);
        assert(!has_key(st.drop_last(), id)) by {
            if has_key(st.drop_last(), id) {
                let j = choose|j: int| 0 <= j < st.drop_last().len() && st.drop_last()[j].0@ == id;
                assert(st[j].0@ == id);
            }
        }
        lemma_stage_of_absent(st.drop_last(), id);
    }
}

/// Replacing the buffer of an existing entry changes that stage alone.
pub proof fn lemma_table_update(st: StageTable, i: int, e: (String, StageBuffer))
    requires
        keys_unique(st),
        0 <= i < st.len(),
        e.0@ == st[i].0@,
    ensures
        keys_unique(st.update(i, e)),
        sum_lens(st.update(i, e)) == sum_lens(st) - st[i].1.records@.len() + e.1.records@.len(),
        forall|s: Seq<char>| #[trigger] sum_source(st.update(i, e), s) == sum_source(st, s)
            - count_source(st[i].1.records@, s) + count_source(e.1.records@, s),
        stage_of(st.update(i, e), e.0@) == e.1.records@,
        forall|k: Seq<char>| k != e.0@ ==> #[trigger] stage_of(st.update(i, e), k) == stage_of(st, k),
        forall|j: int| 0 <= j < st.len() ==> #[trigger] st.update(i, e)[j].0@ == st[j].0@,
    decreases st.len(),
{
    let u = st.update(i, e);
    assert forall|a: int, b: int| 0 <= a < b < u.len() implies u[a].0@ != u[b].0@ by {
        assert(u[a].0@ == st[a].0@ && u[b].0@ == st[b].0@);
    }
    lemma_stage_of_at(u, i);
    if i == st.len() - 1 {
        assert(u.drop_last() =~= st.drop_last());
        assert forall|k: Seq<char>| k != e.0@ implies #[trigger] stage_of(u, k) == stage_of(st, k) by {}
    } else {
        assert(u.drop_last() =~= st.drop_last().update(i, e));
        assert(st.drop_last()[i] == st[i]);
        assert(keys_unique(st.drop_last()));
        lemma_table_update(st.drop_last(), i, e);
        assert(u.last() == st.last());
        assert forall|k: Seq<char>| k != e.0@ implies #[trigger] stage_of(u, k) == stage_of(st, k) by {
            assert(stage_of(st.drop_last().update(i, e), k) == stage_of(st.drop_last(), k));
        }
        assert forall|s: Seq<char>| #[trigger] sum_source(u, s) == sum_source(st, s)
            - count_source(st[i].1.records@, s) + count_source(e.1.records@, s) by {
            assert(sum_source(st.drop_last().update(i, e), s) == sum_source(st.drop_last(), s)
                - count_source(st[i].1.records@, s) + count_source(e.1.records@, s));
        }
    }
}

/// Appending an empty buffer under a new key changes no stage and no count.
pub proof fn lemma_table_push_empty(st: StageTable, e: (String, StageBuffer))
    requires
        keys_unique(st),
        !has_key(st, e.0@),
        e.1.records@.len() == 0,
    ensures
        keys_unique(st.push(e)),
        sum_lens(st.push(e)) == sum_lens(st),
        forall|s: Seq<char>| #[trigger] sum_source(st.push(e), s) == sum_source(st, s),
        forall|k: Seq<char>| #[trigger] stage_of(st.push(e), k) == stage_of(st, k),
{
    let p = st.push(e);
    assert(p.drop_last() =~= st);
    assert forall|a: int, b: int| 0 <= a < b < p.len() implies p[a].0@ != p[b].0@ by {
        if b == st.len() {
            assert(p[a] == st[a]);
        } else {
            assert(p[a] == st[a] && p[b] == st[b]);
        }
    }
    assert(e.1.records@ =~= Seq::<BufferedRecord>::empty());
    assert forall|s: Seq<char>| #[trigger] sum_source(p, s) == sum_source(st, s) by {
        assert(count_source(e.1.records@, s) == 0);
    }
    assert forall|k: Seq<char>| #[trigger] stage_of(p, k) == stage_of(st, k) by {
        if k == e.0@ {
            lemma_stage_of_absent(st, k);
        }
    }
}

pub proof fn lemma_len_le_sum(st: StageTable, i: int)
    requires
        0 <= i < st.len(),
    ensures
        st[i].1.records@.len() <= sum_lens(st),
    decreases st.len(),
{
    if i < st.len() - 1 {
        assert(st.drop_last()[i] == st[i]);
        lemma_len_le_sum(st.drop_last(), i);
    }
}

pub proof fn lemma_prefix_source_le(st: StageTable, n: int, s: Seq<char>)
    requires
        0 <= n <= st.len(),
    ensures
        sum_source(st.take(n), s) <= sum_source(st, s),
    decreases st.len(),
{
    if n < st.len() {
        assert(st.drop_last().take(n) =~= st.take(n));
        lemma_prefix_source_le(st.drop_last(), n, s);
    } else {
        assert(st.take(n) =~= st);
    }
}

pub proof fn lemma_count_source_push(rs: Seq<BufferedRecord>, r: BufferedRecord, s: Seq<char>)
    ensures
        count_source(rs.push(r), s) == count_source(rs, s) + if r.source_id@ == s { 1nat } else { 0nat },
{
    assert(rs.push(r).drop_last() =~= rs);
}

pub proof fn lemma_count_source_concat(a: Seq<BufferedRecord>, b: Seq<BufferedRecord>, s: Seq<char>)
    ensures
        count_source(a + b, s) == count_source(a, s) + count_source(b, s),
    decreases b.len(),
{
    if b.len() == 0 {
        assert(a + b =~= a);
    } else {
        lemma_count_source_concat(a, b.drop_last(), s);
        assert((a + b).drop_last() =~= a + b.drop_last());
        assert((a + b).last() == b.last());
    }
}

pub proof fn lemma_count_source_bumped(rs: Seq<BufferedRecord>, s: Seq<char>)
    ensures
        count_source(rs.map_values(|x: BufferedRecord| bumped(x)), s) == count_source(rs, s),
    decreases rs.len(),
{
    if rs.len() > 0 {
        lemma_count_source_bumped(rs.drop_last(), s);
        assert(rs.map_values(|x: BufferedRecord| bumped(x)).drop_last() =~= rs.drop_last().map_values(|x: BufferedRecord| bumped(x)));
    }
}

pub proof fn lemma_count_source_bound(rs: Seq<BufferedRecord>, s: Seq<char>)
    ensures
        count_source(rs, s) <= rs.len(),
    decreases rs.len(),
{
    if rs.len() > 0 {
        lemma_count_source_bound(rs.drop_last(), s);
    }
}

pub proof fn lemma_sum_source_bound(st: StageTable, s: Seq<char>)
    ensures
        sum_source(st, s) <= sum_lens(st),
    decreases st.len(),
{
    if st.len() > 0 {
        lemma_sum_source_bound(st.drop_last(), s);
        lemma_count_source_bound(st.last().1.records@, s);
    }
}

} // verus!
