use vstd::prelude::*;
use crate::buffer::{bumped, min_nat, BufferedRecord, StageBuffer};
use crate::stage_table::{
    has_key, keys_unique, lemma_stage_of_absent, lemma_stage_of_at, lemma_table_push_empty,
    lemma_table_update, lemma_len_le_sum, lemma_count_source_concat, lemma_count_source_bumped, lemma_count_source_push, lemma_sum_source_bound, lemma_count_source_bound, lemma_prefix_source_le, stage_of, sum_lens, sum_source, count_source,
};

verus! {

/// Limits that a buffer manager is configured with. The backpressure
/// threshold is given in thousandths (800 stands for 0.8).
pub struct BufferSettings {
    pub max_total_records: usize,
    pub max_per_stage: usize,
    pub max_per_source: usize,
    pub backpressure_threshold_permille: u32,
}

/// Why an admission was refused.
#[derive(Debug, Clone, Copy, PartialEq, Eq)]
pub enum CapacityExceeded {
    GlobalFull,
    StageFull,
}

/// Bounded per-stage FIFOs with a global record count, backpressure and
/// credit signals.
pub struct BufferManager {
    stages: Vec<(String, StageBuffer)>,
    max_total_records: usize,
    max_per_stage: usize,
    max_per_source: usize,
    backpressure_threshold_permille: u32,
    total_records: usize,
}

impl BufferManager {
    /// The records buffered for stage `id`, head first.
    pub closed spec fn stage(&self, id: Seq<char>) -> Seq<BufferedRecord> {
        stage_of(self.stages@, id)
    }

    /// The number of buffered records that came from `source`.
    pub closed spec fn source_used(&self, source: Seq<char>) -> nat {
        sum_source(self.stages@, source)
    }

    pub closed spec fn total(&self) -> nat {
        self.total_records as nat
    }

    pub closed spec fn max_total(&self) -> nat {
        self.max_total_records as nat
    }

    pub closed spec fn max_stage(&self) -> nat {
        self.max_per_stage as nat
    }

    pub closed spec fn max_source(&self) -> nat {
        self.max_per_source as nat
    }

    pub closed spec fn threshold(&self) -> nat {
        self.backpressure_threshold_permille as nat
    }

    /// The ids of the stages the manager knows, each once.
    pub closed spec fn stage_ids(&self) -> Seq<Seq<char>> {
        self.stages@.map_values(|e: (String, StageBuffer)| e.0@)
    }

    pub closed spec fn wf(&self) -> bool {
        &&& keys_unique(self.stages@)
        &&& forall|i: int| 0 <= i < self.stages@.len() ==> (#[trigger] self.stages@[i]).1.max_size == self.max_per_stage
        &&& self.total_records == sum_lens(self.stages@)
        &&& self.backpressure_threshold_permille <= 1000
    }

    /// Whether the source should pause: global or source-local use above
    /// the threshold.
    pub open spec fn pressure(&self, source: Seq<char>) -> bool {
        self.global_pressure() || self.source_pressure(source)
    }

    pub open spec fn global_pressure(&self) -> bool {
        self.total() * 1000 > self.threshold() * self.max_total()
    }

    pub open spec fn source_pressure(&self, source: Seq<char>) -> bool {
        self.source_used(source) * 1000 > self.threshold() * self.max_source()
    }

    /// The credits left to `source`: the smaller of the global room and the
    /// room of the source.
    pub open spec fn credits(&self, source: Seq<char>) -> nat {
        min_nat(
            if self.total() < self.max_total() { (self.max_total() - self.total()) as nat } else { 0 },
            if self.source_used(source) < self.max_source() { (self.max_source() - self.source_used(source)) as nat } else { 0 },
        )
    }

    /// Every stage other than `id` holds what it held in `other`.
    pub open spec fn same_but(&self, other: &BufferManager, id: Seq<char>) -> bool {
        &&& forall|k: Seq<char>| k != id ==> #[trigger] self.stage(k) == other.stage(k)
        &&& self.same_limits(other)
    }

    pub open spec fn same_limits(&self, other: &BufferManager) -> bool {
        &&& self.max_total() == other.max_total()
        &&& self.max_stage() == other.max_stage()
        &&& self.max_source() == other.max_source()
        &&& self.threshold() == other.threshold()
    }

    pub fn with_limits(
        max_total_records: usize,
        max_per_stage: usize,
        max_per_source: usize,
        backpressure_threshold_permille: u32,
    ) -> (m: BufferManager)
        requires
            backpressure_threshold_permille <= 1000,
        ensures
            m.wf(),
            m.total() == 0,
            forall|k: Seq<char>| #[trigger] m.stage(k) == Seq::<BufferedRecord>::empty(),
            forall|s: Seq<char>| #[trigger] m.source_used(s) == 0,
            m.max_total() == max_total_records,
            m.max_stage() == max_per_stage,
            m.max_source() == max_per_source,
            m.threshold() == backpressure_threshold_permille,
    {
        let m = BufferManager {
            stages: Vec::new(),
            max_total_records,
            max_per_stage,
            max_per_source,
            backpressure_threshold_permille,
            total_records: 0,
        };
        assert forall|k: Seq<char>| #[trigger] m.stage(k) == Seq::<BufferedRecord>::empty() by {
            lemma_stage_of_absent(m.stages@, k);
        }
        m
    }

    pub fn new(settings: BufferSettings) -> (m: BufferManager)
        requires
            settings.backpressure_threshold_permille <= 1000,
        ensures
            m.wf(),
            m.total() == 0,
            forall|k: Seq<char>| #[trigger] m.stage(k) == Seq::<BufferedRecord>::empty(),
            forall|s: Seq<char>| #[trigger] m.source_used(s) == 0,
            m.max_total() == settings.max_total_records,
            m.max_stage() == settings.max_per_stage,
            m.max_source() == settings.max_per_source,
            m.threshold() == settings.backpressure_threshold_permille,
    {
        Self::with_limits(
            settings.max_total_records,
            settings.max_per_stage,
            settings.max_per_source,
            settings.backpressure_threshold_permille,
        )
    }

    fn find_stage(&self, id: &String) -> (r: Option<usize>)
        ensures
            match r {
                Some(i) => i < self.stages@.len() && self.stages@[i as int].0@ == id@,
                None => !has_key(self.stages@, id@),
            },
    {
        let mut i: usize = 0;
        while i < self.stages.len()
            invariant
                0 <= i <= self.stages@.len(),
                forall|j: int| 0 <= j < i ==> self.stages@[j].0@ != id@,
            decreases self.stages@.len() - i,
        {
            if self.stages[i].0 == *id {
                return Some(i);
            }
            i = i + 1;
        }
        None
    }

    /// The index of stage `id`, created empty where it is missing.
    fn ensure_stage(&mut self, id: &String) -> (i: usize)
        requires
            old(self).wf(),
        ensures
            final(self).wf(),
            i < final(self).stages@.len(),
            final(self).stages@[i as int].0@ == id@,
            final(self).total() == old(self).total(),
            final(self).same_limits(old(self)),
            forall|k: Seq<char>| #[trigger] final(self).stage(k) == old(self).stage(k),
            forall|s: Seq<char>| #[trigger] final(self).source_used(s) == old(self).source_used(s),
    {
        match self.find_stage(id) {
            Some(i) => i,
            None => {
                let e = (id.clone(), StageBuffer::new(self.max_per_stage));
                proof { lemma_table_push_empty(self.stages@, e); }
                self.stages.push(e);
                self.stages.len() - 1
            },
        }
    }

    /// Swaps in a new buffer for the entry at `i`, keeping its key.
    fn replace_stage(&mut self, i: usize, buf: StageBuffer) -> (old_buf: StageBuffer)
        requires
            keys_unique(old(self).stages@),
            i < old(self).stages@.len(),
            buf.max_size == old(self).max_per_stage,
        ensures
            keys_unique(final(self).stages@),
            final(self).stages@ == old(self).stages@.update(i as int, (old(self).stages@[i as int].0, buf)),
            old_buf == old(self).stages@[i as int].1,
            final(self).total_records == old(self).total_records,
            final(self).same_limits(old(self)),
            final(self).max_per_stage == old(self).max_per_stage,
            final(self).backpressure_threshold_permille == old(self).backpressure_threshold_permille,
    {
        let (key, old_buf) = self.stages.remove(i);
        let ghost k = key;
        self.stages.insert(i, (key, buf));
        proof {
            assert(self.stages@ =~= old(self).stages@.update(i as int, (k, buf)));
            lemma_table_update(old(self).stages@, i as int, (k, buf));
        }
        old_buf
    }

    /// Admits one record at the tail of stage `stage_id`.
    pub fn buffer_for_stage(&mut self, stage_id: &str, record: BufferedRecord) -> (r: Result<(), CapacityExceeded>)
        requires
            old(self).wf(),
        ensures
            final(self).wf(),
            final(self).same_limits(old(self)),
            old(self).total() >= old(self).max_total() ==> r == Err::<(), CapacityExceeded>(CapacityExceeded::GlobalFull),
            old(self).total() < old(self).max_total() && old(self).stage(stage_id@).len() >= old(self).max_stage()
                ==> r == Err::<(), CapacityExceeded>(CapacityExceeded::StageFull),
            r is Ok <==> old(self).total() < old(self).max_total() && old(self).stage(stage_id@).len() < old(self).max_stage(),
            r is Ok ==> {
                &&& final(self).stage(stage_id@) == old(self).stage(stage_id@).push(record)
                &&& final(self).total() == old(self).total() + 1
                &&& final(self).same_but(old(self), stage_id@)
                &&& final(self).source_used(record.source_id@) == old(self).source_used(record.source_id@) + 1
                &&& forall|s: Seq<char>| s != record.source_id@ ==> #[trigger] final(self).source_used(s) == old(self).source_used(s)
            },
            r is Err ==> {
                &&& final(self).stage(stage_id@) == old(self).stage(stage_id@)
                &&& final(self).total() == old(self).total()
                &&& final(self).same_but(old(self), stage_id@)
                &&& forall|s: Seq<char>| #[trigger] final(self).source_used(s) == old(self).source_used(s)
            },
    {
        if self.total_records >= self.max_total_records {
            return Err(CapacityExceeded::GlobalFull);
        }
        let id = stage_id.to_owned();
        let i = self.ensure_stage(&id);
        proof { lemma_stage_of_at(self.stages@, i as int); }
        let ghost mid = *self;
        let ghost rec = record;
        let mut buf = self.replace_stage(i, StageBuffer::new(self.max_per_stage));
        let ok = buf.push(record);
        self.replace_stage(i, buf);
        if ok {
            self.total_records = self.total_records + 1;
        }
        proof {
            assert(self.stages@ =~= mid.stages@.update(i as int, (mid.stages@[i as int].0, buf)));
            lemma_stage_replaced(mid, *self, i as int, buf);
            assert(mid.stage(stage_id@) == old(self).stage(stage_id@));
            assert forall|k: Seq<char>| k != stage_id@ implies #[trigger] self.stage(k) == old(self).stage(k) by {
                assert(mid.stage(k) == old(self).stage(k));
            }
            let ob = mid.stages@[i as int].1.records@;
            assert forall|s: Seq<char>| #[trigger] self.source_used(s)
                == old(self).source_used(s) + (if ok && rec.source_id@ == s { 1int } else { 0int }) by {
                assert(mid.source_used(s) == old(self).source_used(s));
                lemma_count_source_push(ob, rec, s);
            }
        }
        if ok {
            Ok(())
        } else {
            Err(CapacityExceeded::StageFull)
        }
    }
}

impl BufferManager {
    /// Admits records of `records`, in order, while both the global and the
    /// stage limit allow; reports how many were admitted.
    pub fn buffer_batch_for_stage(&mut self, stage_id: &str, records: Vec<BufferedRecord>) -> (r: Result<usize, CapacityExceeded>)
        requires
            old(self).wf(),
        ensures
            final(self).wf(),
            final(self).same_but(old(self), stage_id@),
            old(self).total() >= old(self).max_total() <==> r == Err::<usize, CapacityExceeded>(CapacityExceeded::GlobalFull),
            old(self).total() < old(self).max_total() <==> r is Ok,
            r is Err ==> {
                &&& final(self).stage(stage_id@) == old(self).stage(stage_id@)
                &&& final(self).total() == old(self).total()
                &&& forall|s: Seq<char>| #[trigger] final(self).source_used(s) == old(self).source_used(s)
            },
            r matches Ok(k) ==> {
                &&& k == min_nat(min_nat(records@.len(), (old(self).max_total() - old(self).total()) as nat),
                    if old(self).stage(stage_id@).len() < old(self).max_stage() {
                        (old(self).max_stage() - old(self).stage(stage_id@).len()) as nat
                    } else {
                        0
                    })
                &&& final(self).stage(stage_id@) == old(self).stage(stage_id@) + records@.take(k as int)
                &&& final(self).total() == old(self).total() + k
                &&& forall|s: Seq<char>| #[trigger] final(self).source_used(s)
                    == old(self).source_used(s) + count_source(records@.take(k as int), s)
            },
    {
        if self.total_records >= self.max_total_records {
            return Err(CapacityExceeded::GlobalFull);
        }
        let available = self.max_total_records - self.total_records;
        let id = stage_id.to_owned();
        let i = self.ensure_stage(&id);
        let ghost mid = *self;
        proof { lemma_stage_of_at(mid.stages@, i as int); }
        let mut buf = self.replace_stage(i, StageBuffer::new(self.max_per_stage));
        let room = if buf.len() < buf.max_size { buf.max_size - buf.len() } else { 0 };
        let mut k = if records.len() < available { records.len() } else { available };
        if room < k {
            k = room;
        }
        let ghost orig = buf.records@;
        let mut rest = records;
        let mut n: usize = 0;
        while n < k
            invariant
                k <= records@.len(),
                k <= room,
                room == if orig.len() < buf.max_size { buf.max_size - orig.len() } else { 0 },
                0 <= n <= k,
                buf.records@ == orig + records@.take(n as int),
                rest@ == records@.skip(n as int),
                buf.max_size == mid.max_per_stage,
            decreases k - n,
        {
            let rec = rest.remove(0);
            let ok = buf.push(rec);
            assert(ok);
            assert(buf.records@ =~= orig + records@.take(n + 1));
            assert(rest@ =~= records@.skip(n + 1));
            n = n + 1;
        }
        self.replace_stage(i, buf);
        self.total_records = self.total_records + k;
        proof {
            assert(self.stages@ =~= mid.stages@.update(i as int, (mid.stages@[i as int].0, buf)));
            lemma_stage_replaced(mid, *self, i as int, buf);
            assert(mid.stage(stage_id@) == old(self).stage(stage_id@));
            assert forall|q: Seq<char>| q != stage_id@ implies #[trigger] self.stage(q) == old(self).stage(q) by {
                assert(mid.stage(q) == old(self).stage(q));
            }
            assert forall|q: Seq<char>| #[trigger] self.source_used(q)
                == old(self).source_used(q) + count_source(records@.take(k as int), q) by {
                assert(mid.source_used(q) == old(self).source_used(q));
                lemma_count_source_concat(orig, records@.take(k as int), q);
            }
        }
        Ok(k)
    }

    /// Drains up to `max_batch_size` records from the head of stage
    /// `stage_id`; an unknown stage gives an empty batch.
    pub fn get_batch(&mut self, stage_id: &str, max_batch_size: usize) -> (batch: Vec<BufferedRecord>)
        requires
            old(self).wf(),
        ensures
            final(self).wf(),
            final(self).same_but(old(self), stage_id@),
            batch@ == old(self).stage(stage_id@).take(min_nat(max_batch_size as nat, old(self).stage(stage_id@).len()) as int),
            final(self).stage(stage_id@) == old(self).stage(stage_id@).skip(batch@.len() as int),
            final(self).total() == old(self).total() - batch@.len(),
            forall|s: Seq<char>| #[trigger] final(self).source_used(s) == old(self).source_used(s) - count_source(batch@, s),
    {
        let id = stage_id.to_owned();
        match self.find_stage(&id) {
            None => {
                proof { lemma_stage_of_absent(self.stages@, stage_id@); }
                assert(old(self).stage(stage_id@).skip(0) =~= old(self).stage(stage_id@));
                Vec::new()
            },
            Some(i) => {
                let ghost mid = *self;
                proof {
                    lemma_stage_of_at(mid.stages@, i as int);
                    lemma_len_le_sum(mid.stages@, i as int);
                }
                let mut buf = self.replace_stage(i, StageBuffer::new(self.max_per_stage));
                let batch = buf.pop_batch(max_batch_size);
                self.replace_stage(i, buf);
                self.total_records = self.total_records - batch.len();
                proof {
                    assert(self.stages@ =~= mid.stages@.update(i as int, (mid.stages@[i as int].0, buf)));
                    lemma_stage_replaced(mid, *self, i as int, buf);
                    assert forall|q: Seq<char>| q != stage_id@ implies #[trigger] self.stage(q) == old(self).stage(q) by {}
                    let ob = mid.stages@[i as int].1.records@;
                    assert(ob =~= batch@ + buf.records@);
                    assert forall|q: Seq<char>| #[trigger] self.source_used(q) == old(self).source_used(q) - count_source(batch@, q) by {
                        lemma_count_source_concat(batch@, buf.records@, q);
                    }
                }
                batch
            },
        }
    }

    /// Puts failed records back at the tail of stage `stage_id` with their
    /// retry counter raised; those that find no room are dropped.
    pub fn return_to_buffer(&mut self, stage_id: &str, records: Vec<BufferedRecord>) -> (admitted: usize)
        requires
            old(self).wf(),
            forall|j: int| 0 <= j < records@.len() ==> (#[trigger] records@[j]).retry_count < u32::MAX,
        ensures
            final(self).wf(),
            final(self).same_but(old(self), stage_id@),
            admitted == min_nat(min_nat(records@.len(), (usize::MAX - old(self).total()) as nat),
                if old(self).stage(stage_id@).len() < old(self).max_stage() {
                    (old(self).max_stage() - old(self).stage(stage_id@).len()) as nat
                } else {
                    0
                }),
            final(self).stage(stage_id@) == old(self).stage(stage_id@) + records@.take(admitted as int).map_values(|x: BufferedRecord| bumped(x)),
            final(self).total() == old(self).total() + admitted,
            forall|s: Seq<char>| #[trigger] final(self).source_used(s)
                == old(self).source_used(s) + count_source(records@.take(admitted as int), s),
    {
        let available = usize::MAX - self.total_records;
        let id = stage_id.to_owned();
        let i = self.ensure_stage(&id);
        let ghost mid = *self;
        proof { lemma_stage_of_at(mid.stages@, i as int); }
        let mut buf = self.replace_stage(i, StageBuffer::new(self.max_per_stage));
        let room = if buf.len() < buf.max_size { buf.max_size - buf.len() } else { 0 };
        let mut k = if records.len() < available { records.len() } else { available };
        if room < k {
            k = room;
        }
        let ghost orig = buf.records@;
        let mut rest = records;
        let mut n: usize = 0;
        while n < k
            invariant
                k <= records@.len(),
                k <= room,
                room == if orig.len() < buf.max_size { buf.max_size - orig.len() } else { 0 },
                0 <= n <= k,
                buf.records@ == orig + records@.take(n as int).map_values(|x: BufferedRecord| bumped(x)),
                rest@ == records@.skip(n as int),
                buf.max_size == mid.max_per_stage,
                forall|j: int| 0 <= j < records@.len() ==> (#[trigger] records@[j]).retry_count < u32::MAX,
            decreases k - n,
        {
            let mut rec = rest.remove(0);
            assert(rec == records@[n as int]);
            rec.retry_count = rec.retry_count + 1;
            let ok = buf.push(rec);
            assert(ok);
            assert(buf.records@ =~= orig + records@.take(n + 1).map_values(|x: BufferedRecord| bumped(x)));
            assert(rest@ =~= records@.skip(n + 1));
            n = n + 1;
        }
        self.replace_stage(i, buf);
        self.total_records = self.total_records + k;
        proof {
            assert(self.stages@ =~= mid.stages@.update(i as int, (mid.stages@[i as int].0, buf)));
            lemma_stage_replaced(mid, *self, i as int, buf);
            assert(mid.stage(stage_id@) == old(self).stage(stage_id@));
            assert forall|q: Seq<char>| q != stage_id@ implies #[trigger] self.stage(q) == old(self).stage(q) by {
                assert(mid.stage(q) == old(self).stage(q));
            }
            assert forall|q: Seq<char>| #[trigger] self.source_used(q)
                == old(self).source_used(q) + count_source(records@.take(k as int), q) by {
                assert(mid.source_used(q) == old(self).source_used(q));
                lemma_count_source_concat(orig, records@.take(k as int).map_values(|x: BufferedRecord| bumped(x)), q);
                lemma_count_source_bumped(records@.take(k as int), q);
            }
        }
        k
    }
}

impl BufferManager {
    /// Counts the buffered records that came from `source`.
    fn count_from_source(&self, source: &String) -> (n: usize)
        requires
            self.wf(),
        ensures
            n == self.source_used(source@),
    {
        let ghost st = self.stages@;
        let mut acc: usize = 0;
        let mut i: usize = 0;
        proof {
            assert(st.take(0) =~= Seq::<(String, StageBuffer)>::empty());
            lemma_sum_source_bound(st, source@);
        }
        while i < self.stages.len()
            invariant
                st == self.stages@,
                self.wf(),
                0 <= i <= st.len(),
                acc == sum_source(st.take(i as int), source@),
                sum_source(st, source@) <= self.total_records,
            decreases st.len() - i,
        {
            let buf = &self.stages[i].1;
            let ghost rs = buf.records@;
            let mut c: usize = 0;
            let mut j: usize = 0;
            proof {
                assert(rs.take(0) =~= Seq::<BufferedRecord>::empty());
                assert(st.take(i + 1).drop_last() =~= st.take(i as int));
                lemma_prefix_source_le(st, i + 1, source@);
                lemma_count_source_bound(rs, source@);
            }
            while j < buf.records.len()
                invariant
                    rs == buf.records@,
                    0 <= j <= rs.len(),
                    c == count_source(rs.take(j as int), source@),
                    c <= j,
                decreases rs.len() - j,
            {
                proof {
                    assert(rs.take(j + 1).drop_last() =~= rs.take(j as int));
                }
                if buf.records[j].source_id == *source {
                    c = c + 1;
                }
                j = j + 1;
            }
            proof { assert(rs.take(j as int) =~= rs); }
            acc = acc + c;
            i = i + 1;
        }
        proof { assert(st.take(i as int) =~= st); }
        acc
    }

    /// True when global use, or the use of `source_id`, is above the
    /// backpressure threshold.
    pub fn should_backpressure(&self, source_id: &str) -> (r: bool)
        requires
            self.wf(),
        ensures
            r == self.pressure(source_id@),
    {
        let total = self.total_records as u128;
        let t = self.backpressure_threshold_permille as u128;
        let mt = self.max_total_records as u128;
        let ms = self.max_per_source as u128;
        assert(t * mt <= 1000 * 0xffff_ffff_ffff_ffffu128) by (nonlinear_arith)
            requires t <= 1000, mt <= 0xffff_ffff_ffff_ffffu128;
        assert(t * ms <= 1000 * 0xffff_ffff_ffff_ffffu128) by (nonlinear_arith)
            requires t <= 1000, ms <= 0xffff_ffff_ffff_ffffu128;
        if total * 1000 > t * mt {
            return true;
        }
        let used = self.count_from_source(&stage_key(source_id)) as u128;
        used * 1000 > t * ms
    }

    /// How many more records `source_id` may submit.
    pub fn available_credits(&self, source_id: &str) -> (r: u64)
        requires
            self.wf(),
        ensures
            r == self.credits(source_id@),
    {
        let global_available = if self.total_records < self.max_total_records {
            self.max_total_records - self.total_records
        } else {
            0
        };
        let used = self.count_from_source(&stage_key(source_id));
        let source_available = if used < self.max_per_source { self.max_per_source - used } else { 0 };
        if global_available < source_available {
            global_available as u64
        } else {
            source_available as u64
        }
    }

    pub fn get_stage_buffer_size(&self, stage_id: &str) -> (r: usize)
        requires
            self.wf(),
        ensures
            r == self.stage(stage_id@).len(),
    {
        match self.find_stage(&stage_key(stage_id)) {
            Some(i) => {
                proof { lemma_stage_of_at(self.stages@, i as int); }
                self.stages[i].1.len()
            },
            None => {
                proof { lemma_stage_of_absent(self.stages@, stage_id@); }
                0
            },
        }
    }

    pub fn get_total_buffered(&self) -> (r: usize)
        ensures
            r == self.total(),
    {
        self.total_records
    }

    /// The ids of the stages that hold at least one record.
    pub fn get_stages_with_data(&self) -> (r: Vec<String>)
        requires
            self.wf(),
        ensures
            forall|j: int| 0 <= j < r@.len() ==> self.stage((#[trigger] r@[j])@).len() > 0,
            forall|id: Seq<char>| #[trigger] self.stage(id).len() > 0 ==> exists|j: int| 0 <= j < r@.len() && r@[j]@ == id,
            forall|a: int, b: int| 0 <= a < b < r@.len() ==> r@[a]@ != r@[b]@,
    {
        let ghost st = self.stages@;
        let mut out: Vec<String> = Vec::new();
        let mut i: usize = 0;
        while i < self.stages.len()
            invariant
                st == self.stages@,
                self.wf(),
                0 <= i <= st.len(),
                forall|j: int| 0 <= j < out@.len() ==> self.stage((#[trigger] out@[j])@).len() > 0,
                forall|t: int| 0 <= t < i && (#[trigger] st[t]).1.records@.len() > 0
                    ==> exists|j: int| 0 <= j < out@.len() && out@[j]@ == st[t].0@,
                forall|j: int| 0 <= j < out@.len() ==> exists|t: int| 0 <= t < i && (#[trigger] out@[j])@ == st[t].0@,
                forall|a: int, b: int| 0 <= a < b < out@.len() ==> out@[a]@ != out@[b]@,
            decreases st.len() - i,
        {
            proof { lemma_stage_of_at(st, i as int); }
            let ghost before = out@;
            if self.stages[i].1.len() > 0 {
                let key = self.stages[i].0.clone();
                out.push(key);
                assert(out@[out@.len() - 1]@ == st[i as int].0@);
            }
            proof {
                assert forall|j: int| 0 <= j < out@.len() implies exists|t: int| 0 <= t < i + 1 && (#[trigger] out@[j])@ == st[t].0@ by {
                    if j < before.len() {
                        assert(out@[j] == before[j]);
                        let t = choose|t: int| 0 <= t < i && (#[trigger] before[j])@ == st[t].0@;
                    } else {
                        assert(out@[j]@ == st[i as int].0@);
                    }
                }
                assert forall|a: int, b: int| 0 <= a < b < out@.len() implies out@[a]@ != out@[b]@ by {
                    if b < before.len() {
                        assert(out@[a] == before[a] && out@[b] == before[b]);
                    } else {
                        assert(out@[a] == before[a]);
                        let t = choose|t: int| 0 <= t < i && (#[trigger] before[a])@ == st[t].0@;
                        assert(keys_unique(st));
                        assert(st[t].0@ != st[i as int].0@);
                    }
                }
                assert forall|t: int| 0 <= t < i + 1 && (#[trigger] st[t]).1.records@.len() > 0
                    implies exists|j: int| 0 <= j < out@.len() && out@[j]@ == st[t].0@ by {
                    if t < i {
                        let j = choose|j: int| 0 <= j < before.len() && before[j]@ == st[t].0@;
                        assert(out@[j] == before[j]);
                    } else {
                        assert(out@[out@.len() - 1]@ == st[t].0@);
                    }
                }
            }
            i = i + 1;
        }
        proof {
            assert forall|id: Seq<char>| #[trigger] self.stage(id).len() > 0 implies exists|j: int| 0 <= j < out@.len() && out@[j]@ == id by {
                if !has_key(st, id) {
                    lemma_stage_of_absent(st, id);
                }
                let t = choose|t: int| 0 <= t < st.len() && st[t].0@ == id;
                lemma_stage_of_at(st, t);
                assert(st[t].1.records@.len() > 0);
            }
        }
        out
    }

    pub fn max_total_records(&self) -> (r: usize)
        ensures
            r == self.max_total(),
    {
        self.max_total_records
    }

    pub fn max_per_stage(&self) -> (r: usize)
        ensures
            r == self.max_stage(),
    {
        self.max_per_stage
    }

    pub fn max_per_source(&self) -> (r: usize)
        ensures
            r == self.max_source(),
    {
        self.max_per_source
    }

    pub fn backpressure_threshold_permille(&self) -> (r: u32)
        ensures
            r == self.threshold(),
    {
        self.backpressure_threshold_permille
    }

    /// The sum of the sizes of the stages named in `ids`.
    pub open spec fn sum_sizes(&self, ids: Seq<Seq<char>>) -> nat
        decreases ids.len(),
    {
        if ids.len() == 0 {
            0
        } else {
            self.sum_sizes(ids.drop_last()) + self.stage(ids.last()).len()
        }
    }
}

impl Default for BufferManager {
    fn default() -> (m: BufferManager)
        ensures
            m.wf(),
            m.total() == 0,
            forall|k: Seq<char>| #[trigger] m.stage(k) == Seq::<BufferedRecord>::empty(),
            forall|s: Seq<char>| #[trigger] m.source_used(s) == 0,
            m.max_total() == 100_000,
            m.max_stage() == 10_000,
            m.max_source() == 5_000,
            m.threshold() == 800,
    {
        BufferManager::with_limits(100_000, 10_000, 5_000, 800)
    }
}

fn stage_key(s: &str) -> (r: String)
    ensures
        r@ == s@,
{
    s.to_owned()
}

/// The global count is the sum of the sizes of all stages: the stage ids
/// are listed once each, every stage holding records is among them, and the
/// sizes of the listed stages add up to the total.
pub proof fn lemma_total_is_sum_of_stages(m: BufferManager)
    requires
        m.wf(),
    ensures
        m.stage_ids().no_duplicates(),
        forall|id: Seq<char>| #[trigger] m.stage(id).len() > 0 ==> m.stage_ids().contains(id),
        m.total() == m.sum_sizes(m.stage_ids()),
{
    let st = m.stages@;
    let ids = m.stage_ids();
    assert forall|a: int, b: int| 0 <= a < ids.len() && 0 <= b < ids.len() && a != b implies ids[a] != ids[b] by {
        if a < b { assert(st[a].0@ != st[b].0@); } else { assert(st[b].0@ != st[a].0@); }
    }
    assert forall|id: Seq<char>| #[trigger] m.stage(id).len() > 0 implies ids.contains(id) by {
        if !has_key(st, id) {
            lemma_stage_of_absent(st, id);
        }
        let t = choose|t: int| 0 <= t < st.len() && st[t].0@ == id;
        assert(ids[t] == id);
    }
    lemma_prefix_sums(m, st.len() as int);
    assert(st.take(st.len() as int) =~= st);
    assert(ids.take(st.len() as int) =~= ids);
}

proof fn lemma_prefix_sums(m: BufferManager, n: int)
    requires
        m.wf(),
        0 <= n <= m.stages@.len(),
    ensures
        sum_lens(m.stages@.take(n)) == m.sum_sizes(m.stage_ids().take(n)),
    decreases n,
{
    let st = m.stages@;
    let ids = m.stage_ids();
    if n == 0 {
        assert(st.take(0) =~= Seq::<(String, StageBuffer)>::empty());
        assert(ids.take(0) =~= Seq::<Seq<char>>::empty());
    } else {
        lemma_prefix_sums(m, n - 1);
        assert(st.take(n).drop_last() =~= st.take(n - 1));
        assert(ids.take(n).drop_last() =~= ids.take(n - 1));
        lemma_stage_of_at(st, n - 1);
    }
}

/// Whenever a source is told to pause, either the global buffer is above the
/// threshold or the credits of the source are at most `(1 - threshold)` of
/// its limit.
pub proof fn lemma_backpressure_bounds_credits(m: BufferManager, source: Seq<char>)
    requires
        m.wf(),
    ensures
        m.pressure(source) ==> m.global_pressure() || m.credits(source) * 1000 <= (1000 - m.threshold()) * m.max_source(),
{
    if m.pressure(source) && !m.global_pressure() {
        let u = m.source_used(source);
        let ms = m.max_source();
        let t = m.threshold();
        assert(u * 1000 > t * ms);
        if u < ms {
            assert(m.credits(source) <= ms - u);
            assert((ms - u) * 1000 <= (1000 - t) * ms) by (nonlinear_arith)
                requires u * 1000 > t * ms, u < ms, t <= 1000;
        }
    }
}

/// Records pushed one after another to a stage, each push appending at the
/// tail, come out of a later drain of that stage in the order they were
/// pushed: `states[i + 1]` is the manager after pushing `pushed[i]` to
/// `states[i]`, and `batch` a drain of the last state.
pub proof fn lemma_fifo(states: Seq<BufferManager>, pushed: Seq<BufferedRecord>, id: Seq<char>, n: nat, batch: Seq<BufferedRecord>)
    requires
        states.len() == pushed.len() + 1,
        forall|i: int| 0 <= i < pushed.len() ==> (#[trigger] states[i + 1]).stage(id) == states[i].stage(id).push(pushed[i]),
        batch == states.last().stage(id).take(min_nat(n, states.last().stage(id).len()) as int),
    ensures
        batch == (states[0].stage(id) + pushed).take(batch.len() as int),
        forall|i: int, j: int| 0 <= i < j < pushed.len() && states[0].stage(id).len() + j < batch.len() ==>
            batch[states[0].stage(id).len() + i] == pushed[i] && batch[states[0].stage(id).len() + j] == pushed[j],
{
    lemma_pushes_append(states, pushed, id);
}

proof fn lemma_pushes_append(states: Seq<BufferManager>, pushed: Seq<BufferedRecord>, id: Seq<char>)
    requires
        states.len() == pushed.len() + 1,
        forall|i: int| 0 <= i < pushed.len() ==> (#[trigger] states[i + 1]).stage(id) == states[i].stage(id).push(pushed[i]),
    ensures
        states.last().stage(id) == states[0].stage(id) + pushed,
    decreases pushed.len(),
{
    if pushed.len() == 0 {
        assert(states[0].stage(id) + pushed =~= states[0].stage(id));
    } else {
        let s2 = states.drop_last();
        let p2 = pushed.drop_last();
        assert forall|i: int| 0 <= i < p2.len() implies (#[trigger] s2[i + 1]).stage(id) == s2[i].stage(id).push(p2[i]) by {
            assert(states[i + 1] == s2[i + 1]);
        }
        lemma_pushes_append(s2, p2, id);
        assert(states[pushed.len() as int] == states.last());
        assert(states[pushed.len() - 1] == s2.last());
        assert(states[0].stage(id) + pushed =~= (states[0].stage(id) + p2).push(pushed.last()));
    }
}

/// After the buffer at `i` is replaced and the count adjusted, the manager
/// is well formed again and only that stage changed.
proof fn lemma_stage_replaced(mid: BufferManager, fin: BufferManager, i: int, buf: StageBuffer)
    requires
        mid.wf(),
        0 <= i < mid.stages@.len(),
        fin.stages@ == mid.stages@.update(i, (mid.stages@[i].0, buf)),
        buf.max_size == mid.max_per_stage,
        fin.max_total_records == mid.max_total_records,
        fin.max_per_stage == mid.max_per_stage,
        fin.max_per_source == mid.max_per_source,
        fin.backpressure_threshold_permille == mid.backpressure_threshold_permille,
        fin.total_records == mid.total_records - mid.stages@[i].1.records@.len() + buf.records@.len(),
    ensures
        fin.wf(),
        fin.stage(mid.stages@[i].0@) == buf.records@,
        mid.stage(mid.stages@[i].0@) == mid.stages@[i].1.records@,
        forall|k: Seq<char>| k != mid.stages@[i].0@ ==> #[trigger] fin.stage(k) == mid.stage(k),
        forall|s: Seq<char>| #[trigger] fin.source_used(s) == mid.source_used(s)
            - count_source(mid.stages@[i].1.records@, s) + count_source(buf.records@, s),
{
    lemma_table_update(mid.stages@, i, (mid.stages@[i].0, buf));
    lemma_stage_of_at(mid.stages@, i);
    assert forall|j: int| 0 <= j < fin.stages@.len() implies (#[trigger] fin.stages@[j]).1.max_size == fin.max_per_stage by {
        if j != i {
            assert(fin.stages@[j] == mid.stages@[j]);
        }
    }
    assert forall|k: Seq<char>| k != mid.stages@[i].0@ implies #[trigger] fin.stage(k) == mid.stage(k) by {
        assert(stage_of(mid.stages@.update(i, (mid.stages@[i].0, buf)), k) == stage_of(mid.stages@, k));
    }
    assert forall|s: Seq<char>| #[trigger] fin.source_used(s) == mid.source_used(s)
        - count_source(mid.stages@[i].1.records@, s) + count_source(buf.records@, s) by {
        assert(sum_source(mid.stages@.update(i, (mid.stages@[i].0, buf)), s) == sum_source(mid.stages@, s)
            - count_source(mid.stages@[i].1.records@, s) + count_source(buf.records@, s));
    }
}

} // verus!
