use vstd::prelude::*;
use std::collections::VecDeque;
use crate::record::Record;

verus! {

/// A record waiting between two pipeline stages.
pub struct BufferedRecord {
    pub record: Record,
    pub source_id: String,
    pub pipeline_id: String,
    pub target_stage_id: String,
    /// Monotonic timestamp (milliseconds) taken when the record was buffered.
    pub buffered_at: u64,
    pub retry_count: u32,
}

/// `r` with its retry counter raised by one.
pub open spec fn bumped(r: BufferedRecord) -> BufferedRecord {
    BufferedRecord {
        record: r.record,
        source_id: r.source_id,
        pipeline_id: r.pipeline_id,
        target_stage_id: r.target_stage_id,
        buffered_at: r.buffered_at,
        retry_count: (r.retry_count + 1) as u32,
    }
}

/// A bounded FIFO of records for one stage.
pub struct StageBuffer {
    pub records: VecDeque<BufferedRecord>,
    pub max_size: usize,
}

impl StageBuffer {
    pub fn new(max_size: usize) -> (r: StageBuffer)
        ensures
            r.records@ == Seq::<BufferedRecord>::empty(),
            r.max_size == max_size,
    {
        StageBuffer { records: VecDeque::new(), max_size }
    }

    /// Appends at the tail when there is room.
    pub fn push(&mut self, record: BufferedRecord) -> (ok: bool)
        ensures
            ok == (old(self).records@.len() < old(self).max_size),
            ok ==> final(self).records@ == old(self).records@.push(record),
            !ok ==> final(self).records@ == old(self).records@,
            final(self).max_size == old(self).max_size,
    {
        if self.records.len() >= self.max_size {
            return false;
        }
        self.records.push_back(record);
        true
    }

    /// Removes up to `max_batch_size` records from the head.
    pub fn pop_batch(&mut self, max_batch_size: usize) -> (batch: Vec<BufferedRecord>)
        ensures
            batch@ == old(self).records@.take(min_nat(max_batch_size as nat, old(self).records@.len()) as int),
            final(self).records@ == old(self).records@.skip(min_nat(max_batch_size as nat, old(self).records@.len()) as int),
            final(self).max_size == old(self).max_size,
    {
        let count = if max_batch_size < self.records.len() { max_batch_size } else { self.records.len() };
        let mut batch: Vec<BufferedRecord> = Vec::new();
        let mut i: usize = 0;
        while i < count
            invariant
                count <= old(self).records@.len(),
                count == min_nat(max_batch_size as nat, old(self).records@.len()),
                0 <= i <= count,
                batch@ == old(self).records@.take(i as int),
                self.records@ == old(self).records@.skip(i as int),
                self.max_size == old(self).max_size,
            decreases count - i,
        {
            let r = self.records.pop_front();
            match r {
                Some(x) => {
                    batch.push(x);
                },
                None => {},
            }
            assert(batch@ =~= old(self).records@.take(i + 1));
            assert(self.records@ =~= old(self).records@.skip(i + 1));
            i = i + 1;
        }
        batch
    }

    pub fn len(&self) -> (r: usize)
        ensures
            r == self.records@.len(),
    {
        self.records.len()
    }

    pub fn is_full(&self) -> (r: bool)
        ensures
            r == (self.records@.len() >= self.max_size),
    {
        self.records.len() >= self.max_size
    }
}

pub open spec fn min_nat(a: nat, b: nat) -> nat {
    if a < b { a } else { b }
}

} // verus!
