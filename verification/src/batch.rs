//! The bookkeeping of a batched, checksummed spill file.
//!
//! The spill file is a sequence of byte batches written one after another.
//! A [`BatchWriter`] records, for every batch written, its length and a hash of
//! its bytes; a [`BatchReader`] walks the same records to say how many bytes the
//! next batch spans. Moving the bytes to and from the file happens around these
//! types.

use vstd::prelude::*;
use std::collections::hash_map::DefaultHasher;
use std::hash::{Hash, Hasher};

verus! {

/// Feeds `bytes` into `state` (`<[u8] as Hash>::hash`).
///
/// Nothing is claimed of the hasher's state afterwards: std does not document
/// which bytes a slice writes into a hasher.
#[verifier::external_body]
fn hash_slice_into(bytes: &[u8], state: &mut DefaultHasher) {
    bytes.hash(state);
}

/// A hash of `bytes` under `DefaultHasher::new()`, stored beside each batch.
///
/// What hash comes out is not stated: the algorithm is std's and unspecified.
pub fn hash_bytes(bytes: &[u8]) -> u64 {
    let mut hasher = DefaultHasher::new();
    hash_slice_into(bytes, &mut hasher);
    hasher.finish()
}

/// What is recorded of one batch written to the spill file.
#[derive(Debug, Clone, Copy)]
pub struct BatchInfo {
    /// The hash of the batch's bytes ([`hash_bytes`]).
    pub hash: u64,
    /// The number of bytes of the batch.
    pub bytes: usize,
}

/// The sum of the byte counts of `infos`.
pub open spec fn total_bytes(infos: Seq<BatchInfo>) -> nat
    decreases infos.len(),
{
    if infos.len() == 0 {
        0
    } else {
        total_bytes(infos.drop_last()) + infos.last().bytes as nat
    }
}

/// The records of the batches written so far, in order.
pub struct BatchWriter {
    batch_infos: Vec<BatchInfo>,
}

impl View for BatchWriter {
    type V = Seq<BatchInfo>;

    closed spec fn view(&self) -> Seq<BatchInfo> {
        self.batch_infos@
    }
}

impl BatchWriter {
    /// A writer that has written nothing.
    pub fn new() -> (w: BatchWriter)
        ensures
            w@ == Seq::<BatchInfo>::empty(),
    {
        BatchWriter { batch_infos: Vec::new() }
    }

    /// Records that `buffer` has been written to the file as the next batch.
    pub fn write_batch(&mut self, buffer: &[u8])
        ensures
            final(self)@.len() == old(self)@.len() + 1,
            final(self)@.drop_last() == old(self)@,
            final(self)@.last().bytes == buffer@.len(),
            total_bytes(final(self)@) == total_bytes(old(self)@) + buffer@.len(),
    {
        let hash = hash_bytes(buffer);
        self.batch_infos.push(BatchInfo { hash, bytes: buffer.len() });
        assert(self@.drop_last() =~= old(self)@);
    }

    /// The total number of bytes written, or `None` where it exceeds `usize`.
    pub fn checked_bytes_written(&self) -> (n: Option<usize>)
        ensures
            n matches Some(k) ==> k == total_bytes(self@),
            n is None <==> total_bytes(self@) > usize::MAX,
    {
        let mut sum: usize = 0;
        let mut i: usize = 0;
        while i < self.batch_infos.len()
            invariant
                i <= self.batch_infos@.len(),
                sum == total_bytes(self@.take(i as int)),
            decreases self.batch_infos@.len() - i,
        {
            assert(self@.take((i + 1) as int).drop_last() =~= self@.take(i as int));
            let b = self.batch_infos[i].bytes;
            if b > usize::MAX - sum {
                proof { lemma_total_bytes_prefix_le(self@, (i + 1) as int); }
                return None;
            }
            sum = sum + b;
            i = i + 1;
        }
        assert(self@.take(i as int) =~= self@);
        Some(sum)
    }

    /// The total number of bytes written to the file.
    pub fn bytes_written(&self) -> (n: usize)
        requires
            total_bytes(self@) <= usize::MAX,
        ensures
            n == total_bytes(self@),
    {
        match self.checked_bytes_written() {
            Some(n) => n,
            None => 0,
        }
    }

    /// The number of batches written.
    pub fn batch_count(&self) -> (n: usize)
        ensures
            n == self@.len(),
    {
        self.batch_infos.len()
    }

    /// The reader over the same batches, positioned at the first one (once the
    /// file itself has been flushed and rewound).
    pub fn into_reader(self) -> (r: BatchReader)
        ensures
            r.wf(),
            r.infos() == self@,
            r.position() == 0,
    {
        BatchReader { batch_infos: self.batch_infos, batch_index: 0 }
    }
}

/// A prefix of the records has no more bytes than the whole.
pub proof fn lemma_total_bytes_prefix_le(infos: Seq<BatchInfo>, k: int)
    requires
        0 <= k <= infos.len(),
    ensures
        total_bytes(infos.take(k)) <= total_bytes(infos),
    decreases infos.len(),
{
    if k < infos.len() {
        assert(infos.drop_last().take(k) =~= infos.take(k));
        lemma_total_bytes_prefix_le(infos.drop_last(), k);
    } else {
        assert(infos.take(k) =~= infos);
    }
}

/// The total length of `buffers`.
pub open spec fn total_len(buffers: Seq<Seq<u8>>) -> nat
    decreases buffers.len(),
{
    if buffers.len() == 0 {
        0
    } else {
        total_len(buffers.drop_last()) + buffers.last().len()
    }
}

/// `infos` records the batches `buffers`, one record per buffer, in order.
pub open spec fn records_of(infos: Seq<BatchInfo>, buffers: Seq<Seq<u8>>) -> bool {
    &&& infos.len() == buffers.len()
    &&& forall|i: int| 0 <= i < infos.len() ==> (#[trigger] infos[i]).bytes == buffers[i].len()
}

/// Writing one more batch to a writer whose records are those of `buffers`
/// (as `write_batch` does: the old records, then one of the buffer's length)
/// gives the records of `buffers` followed by that buffer.
pub proof fn lemma_records_after_write(
    before: Seq<BatchInfo>,
    after: Seq<BatchInfo>,
    buffers: Seq<Seq<u8>>,
    buffer: Seq<u8>,
)
    requires
        records_of(before, buffers),
        after.len() == before.len() + 1,
        after.drop_last() == before,
        after.last().bytes == buffer.len(),
    ensures
        records_of(after, buffers.push(buffer)),
{
    assert forall|i: int| 0 <= i < after.len() implies (#[trigger] after[i]).bytes
        == buffers.push(buffer)[i].len() by {
        if i < before.len() {
            assert(after[i] == after.drop_last()[i]);
        }
    }
}

/// After writing batches `buffers` to a new writer, there is one record per
/// batch (`batch_count` is the number of batches) and the byte total
/// (`bytes_written`) is the sum of their lengths.
pub proof fn lemma_records_totals(infos: Seq<BatchInfo>, buffers: Seq<Seq<u8>>)
    requires
        records_of(infos, buffers),
    ensures
        infos.len() == buffers.len(),
        total_bytes(infos) == total_len(buffers),
    decreases infos.len(),
{
    if infos.len() > 0 {
        assert(records_of(infos.drop_last(), buffers.drop_last())) by {
            assert forall|i: int| 0 <= i < infos.drop_last().len() implies (
            #[trigger] infos.drop_last()[i]).bytes == buffers.drop_last()[i].len() by {
                assert(infos.drop_last()[i] == infos[i]);
            }
        }
        lemma_records_totals(infos.drop_last(), buffers.drop_last());
        assert(infos.last() == infos[infos.len() - 1]);
    }
}

/// What `read_batch` answers at position `pos` of `infos`.
pub open spec fn read_answer(infos: Seq<BatchInfo>, pos: nat) -> Option<usize> {
    if pos < infos.len() {
        Some(infos[pos as int].bytes)
    } else {
        None
    }
}

/// The position after a `read_batch` at position `pos` of `infos`.
pub open spec fn read_next(infos: Seq<BatchInfo>, pos: nat) -> nat {
    if pos < infos.len() {
        pos + 1
    } else {
        pos
    }
}

/// The answers of `k` successive `read_batch` calls from position `pos`.
pub open spec fn read_answers(infos: Seq<BatchInfo>, pos: nat, k: nat) -> Seq<Option<usize>>
    decreases k,
{
    if k == 0 {
        Seq::empty()
    } else {
        seq![read_answer(infos, pos)] + read_answers(infos, read_next(infos, pos), (k - 1) as nat)
    }
}

/// Successive reads from position `pos` give the byte counts of the records
/// from `pos` on, in order, and then `None` on every later call.
pub proof fn lemma_reads_walk_records(infos: Seq<BatchInfo>, pos: nat, k: nat)
    requires
        pos <= infos.len(),
    ensures
        read_answers(infos, pos, k).len() == k,
        forall|i: int|
            0 <= i < k ==> #[trigger] read_answers(infos, pos, k)[i] == (if pos + i < infos.len() {
                Some(infos[pos + i].bytes)
            } else {
                None::<usize>
            }),
    decreases k,
{
    if k > 0 {
        let next = read_next(infos, pos);
        lemma_reads_walk_records(infos, next, (k - 1) as nat);
        let rest = read_answers(infos, next, (k - 1) as nat);
        assert forall|i: int| 0 <= i < k implies #[trigger] read_answers(infos, pos, k)[i] == (if pos
            + i < infos.len() {
            Some(infos[pos + i].bytes)
        } else {
            None::<usize>
        }) by {
            if i > 0 {
                assert(read_answers(infos, pos, k)[i] == rest[i - 1]);
            }
        }
    }
}

/// Walks the records of a written spill file, batch by batch.
pub struct BatchReader {
    batch_infos: Vec<BatchInfo>,
    batch_index: usize,
}

impl BatchReader {
    /// The records of the file's batches.
    pub closed spec fn infos(&self) -> Seq<BatchInfo> {
        self.batch_infos@
    }

    /// The index of the next batch to read; at most the number of batches.
    pub closed spec fn position(&self) -> nat {
        self.batch_index as nat
    }

    pub closed spec fn wf(&self) -> bool {
        self.batch_index <= self.batch_infos@.len()
    }

    /// A well-formed reader's position is at most the number of batches.
    pub proof fn lemma_position_bounded(&self)
        requires
            self.wf(),
        ensures
            self.position() <= self.infos().len(),
    {
    }

    /// Goes back to the first batch (once the file itself has been rewound).
    pub fn reset(&mut self)
        ensures
            final(self).infos() == old(self).infos(),
            final(self).position() == 0,
            final(self).wf(),
    {
        self.batch_index = 0;
    }

    /// Moves on to the next batch and says how many bytes it spans, or `None`
    /// once every batch has been read.
    pub fn read_batch(&mut self) -> (n: Option<usize>)
        requires
            old(self).wf(),
        ensures
            final(self).wf(),
            final(self).infos() == old(self).infos(),
            old(self).position() < old(self).infos().len() ==> n == Some(
                old(self).infos()[old(self).position() as int].bytes,
            ) && final(self).position() == old(self).position() + 1,
            old(self).position() >= old(self).infos().len() ==> n is None && final(self).position()
                == old(self).position(),
            n == read_answer(old(self).infos(), old(self).position()),
            final(self).position() == read_next(old(self).infos(), old(self).position()),
    {
        if self.batch_index < self.batch_infos.len() {
            let n = self.batch_infos[self.batch_index].bytes;
            self.batch_index = self.batch_index + 1;
            Some(n)
        } else {
            None
        }
    }
}

} // verus!
