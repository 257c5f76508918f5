//! Reconstructions that are done outside of the assembler, and their results.
use crate::fec::codec::opt_bytes_views;
use crate::fec::decode::{fec_decoded, no_code, FecDecoder};
use bytes::Bytes;
use vstd::prelude::*;

verus! {

/// All that it takes to reconstruct one group.
#[derive(Debug)]
pub struct DecodeTask {
    pub frame_id: u64,
    pub slice_idx: u8,
    pub group_idx: u8,
    pub k: u8,
    pub m: u8,
    /// The shards at the time of submission.
    pub shards: Vec<Option<Bytes>>,
    pub payload_lens: Vec<u16>,
}

/// What a [`DecodeTask`] holds.
#[verifier::ext_equal]
pub struct TaskModel {
    pub frame_id: u64,
    pub slice_idx: u8,
    pub group_idx: u8,
    pub k: u8,
    pub m: u8,
    pub shards: Seq<Option<Seq<u8>>>,
    pub lens: Seq<u16>,
}

impl TaskModel {
    /// The shard counts are those of a code.
    pub open spec fn valid(self) -> bool {
        self.k + self.m <= 255 && !no_code(self.k, self.m, self.shards, self.lens)
    }
}

impl View for DecodeTask {
    type V = TaskModel;

    open spec fn view(&self) -> TaskModel {
        TaskModel {
            frame_id: self.frame_id,
            slice_idx: self.slice_idx,
            group_idx: self.group_idx,
            k: self.k,
            m: self.m,
            shards: opt_bytes_views(self.shards@),
            lens: self.payload_lens@,
        }
    }
}

/// The outcome of a [`DecodeTask`].
#[derive(Debug)]
pub struct DecodeResult {
    pub frame_id: u64,
    pub slice_idx: u8,
    /// `None` when the reconstruction failed.
    pub data: Option<Vec<u8>>,
}

impl DecodeTask {
    /// Does the reconstruction.
    pub fn run(&self) -> (r: DecodeResult)
        requires
            self@.valid(),
        ensures
            r.frame_id == self.frame_id,
            r.slice_idx == self.slice_idx,
            match r.data {
                Some(v) => fec_decoded(self.k, self.m, self@.shards, self@.lens) == Some(v@),
                None => fec_decoded(self.k, self.m, self@.shards, self@.lens) is None,
            },
    {
        DecodeResult {
            frame_id: self.frame_id,
            slice_idx: self.slice_idx,
            data: FecDecoder::decode(
                self.k,
                self.m,
                self.shards.as_slice(),
                self.payload_lens.as_slice(),
            ),
        }
    }
}

/// What the tasks hold.
pub open spec fn task_views(tasks: Seq<DecodeTask>) -> Seq<TaskModel> {
    Seq::new(tasks.len(), |i: int| tasks[i]@)
}

/// Tasks that wait for a worker, and results that wait for the assembler. Workers take
/// tasks out with [`ComputePool::take_tasks`], run them, and put the results in with
/// [`ComputePool::complete`].
#[derive(Debug)]
pub struct ComputePool {
    pub tasks: Vec<DecodeTask>,
    pub results: Vec<DecodeResult>,
}

impl ComputePool {
    pub fn new() -> (r: ComputePool)
        ensures
            r.tasks@ == Seq::<DecodeTask>::empty(),
            r.results@ == Seq::<DecodeResult>::empty(),
    {
        ComputePool { tasks: Vec::new(), results: Vec::new() }
    }

    /// Hands a task in.
    pub fn submit(&mut self, task: DecodeTask)
        ensures
            final(self).tasks@ == old(self).tasks@.push(task),
            final(self).results@ == old(self).results@,
    {
        self.tasks.push(task);
    }

    /// Takes out the tasks that were handed in, in order.
    pub fn take_tasks(&mut self) -> (r: Vec<DecodeTask>)
        ensures
            r@ == old(self).tasks@,
            final(self).tasks@ == Seq::<DecodeTask>::empty(),
            final(self).results@ == old(self).results@,
    {
        let mut out: Vec<DecodeTask> = Vec::new();
        std::mem::swap(&mut out, &mut self.tasks);
        out
    }

    /// Puts in the result of a task.
    pub fn complete(&mut self, result: DecodeResult)
        ensures
            final(self).tasks@ == old(self).tasks@,
            final(self).results@ == old(self).results@.push(result),
    {
        self.results.push(result);
    }

    /// Takes out the results that are there, in order.
    pub fn drain_results(&mut self) -> (r: Vec<DecodeResult>)
        ensures
            r@ == old(self).results@,
            final(self).results@ == Seq::<DecodeResult>::empty(),
            final(self).tasks@ == old(self).tasks@,
    {
        let mut out: Vec<DecodeResult> = Vec::new();
        std::mem::swap(&mut out, &mut self.results);
        out
    }
}

} // verus!
