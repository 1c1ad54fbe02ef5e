//! Decisions of the sampling loop: which block to fetch next, how a fetched
//! block becomes a record, and when to checkpoint. Fetching, writing and
//! cancellation are left to the caller, which runs the loop.
use crate::record::{record_bytes, Record};
use vstd::prelude::*;

verus! {

/// Blocks this close to the chain head are not sampled, as they may still be
/// reorganised.
pub const SAFETY_MARGIN: u64 = 64;

/// Successful samples between two flushes and progress reports.
pub const BATCH_SIZE: u64 = 100;

/// What the sampler needs to know of one log: its payload length and its
/// number of topics.
#[derive(Clone, Copy, Debug, PartialEq, Eq, Structural)]
pub struct LogShape {
    pub data_len: u64,
    pub topic_count: u64,
}

/// What the caller does after a fetch.
#[derive(Debug)]
pub enum Action {
    /// Report the failure and draw another block.
    Skip,
    /// Append `bytes`, the encoding of `record`; where `checkpoint` is set,
    /// also flush the output and report progress.
    Append { record: Record, bytes: Vec<u8>, checkpoint: bool },
}

/// State of one sampling run.
#[derive(Clone, Copy, Debug, PartialEq, Eq, Structural)]
pub struct Sampler {
    /// Highest block that may be drawn, fixed for the run.
    pub max_block: u64,
    /// Successful samples so far in this run.
    pub samples: u64,
}

pub open spec fn sum_data(logs: Seq<LogShape>) -> int
    decreases logs.len(),
{
    if logs.len() == 0 {
        0
    } else {
        sum_data(logs.drop_last()) + logs.last().data_len
    }
}

pub open spec fn sum_topics(logs: Seq<LogShape>) -> int
    decreases logs.len(),
{
    if logs.len() == 0 {
        0
    } else {
        sum_topics(logs.drop_last()) + logs.last().topic_count
    }
}

/// The record of block `block` whose logs are `logs`, where its sums fit.
pub open spec fn block_summary(block: u64, logs: Seq<LogShape>) -> Option<Record> {
    if sum_data(logs) <= u64::MAX && sum_topics(logs) <= u64::MAX {
        Some(
            Record {
                block,
                log_count: logs.len() as u64,
                data_len: sum_data(logs) as u64,
                topic_count: sum_topics(logs) as u64,
            },
        )
    } else {
        None
    }
}

/// Reduces the logs of one block to a record. A block whose payload or topic
/// sum does not fit in 64 bits is a malformed response: `None`.
pub fn summarize_block(block: u64, logs: &[LogShape]) -> (r: Option<Record>)
    ensures
        r == block_summary(block, logs@),
{
    let mut data: u128 = 0;
    let mut topics: u128 = 0;
    let mut i: usize = 0;
    while i < logs.len()
        invariant
            i <= logs@.len(),
            data == sum_data(logs@.subrange(0, i as int)),
            topics == sum_topics(logs@.subrange(0, i as int)),
            data <= i * (u64::MAX as int),
            topics <= i * (u64::MAX as int),
        decreases logs@.len() - i,
    {
        let log = logs[i];
        proof {
            let t = logs@.subrange(0, i + 1);
            assert(t.drop_last() =~= logs@.subrange(0, i as int));
            assert((i + 1) * (u64::MAX as int) == i * (u64::MAX as int) + u64::MAX) by (
            nonlinear_arith);
            assert((i + 1) * (u64::MAX as int) <= (u64::MAX as int) * (u64::MAX as int)) by (
            nonlinear_arith)
                requires
                    i + 1 <= u64::MAX,
            ;
        }
        data = data + log.data_len as u128;
        topics = topics + log.topic_count as u128;
        i += 1;
    }
    assert(logs@.subrange(0, logs@.len() as int) =~= logs@);
    if data > u64::MAX as u128 || topics > u64::MAX as u128 {
        return None;
    }
    Some(
        Record {
            block,
            log_count: logs.len() as u64,
            data_len: data as u64,
            topic_count: topics as u64,
        },
    )
}

/// Relies on `fastrand::u64`, which draws from the given inclusive range and
/// panics only on an empty one.
#[verifier::external_body]
fn draw_block(max_block: u64) -> (r: u64)
    ensures
        r <= max_block,
{
    fastrand::u64(0..=max_block)
}

impl Sampler {
    /// Starts a run below chain head `head`; `None` where the chain is not
    /// yet `SAFETY_MARGIN` blocks long.
    pub fn new(head: u64) -> (r: Option<Sampler>)
        ensures
            r is None <==> head < SAFETY_MARGIN,
            r matches Some(s) ==> s.max_block == head - SAFETY_MARGIN && s.samples == 0,
    {
        match head.checked_sub(SAFETY_MARGIN) {
            Some(max_block) => Some(Sampler { max_block, samples: 0 }),
            None => None,
        }
    }

    /// Draws the next block to sample, uniformly from `0..=max_block`.
    pub fn next_block(&self) -> (r: u64)
        ensures
            r <= self.max_block,
    {
        draw_block(self.max_block)
    }

    /// Handles the outcome of fetching the logs of `block`: `None` where the
    /// fetch failed. A failure or a malformed block is skipped with the state
    /// unchanged; otherwise the block's record is appended and counted, and
    /// every `BATCH_SIZE` samples a checkpoint is due.
    pub fn on_fetch(&mut self, block: u64, fetched: Option<Vec<LogShape>>) -> (r: Action)
        ensures
            final(self).max_block == old(self).max_block,
            match fetched {
                None => r is Skip && *final(self) == *old(self),
                Some(logs) => match block_summary(block, logs@) {
                    None => r is Skip && *final(self) == *old(self),
                    Some(rec) => {
                        &&& final(self).samples == if old(self).samples < u64::MAX {
                            old(self).samples + 1
                        } else {
                            old(self).samples as int
                        }
                        &&& r matches Action::Append { record, bytes, checkpoint } && record
                            == rec && bytes@ == record_bytes(rec) && checkpoint == (
                        final(self).samples % BATCH_SIZE == 0)
                    },
                },
            },
    {
        let logs = match fetched {
            Some(logs) => logs,
            None => return Action::Skip,
        };
        let record = match summarize_block(block, logs.as_slice()) {
            Some(record) => record,
            None => return Action::Skip,
        };
        if self.samples < u64::MAX {
            self.samples = self.samples + 1;
        }
        let bytes = record.encode();
        Action::Append { record, bytes, checkpoint: self.samples % BATCH_SIZE == 0 }
    }
}

} // verus!
