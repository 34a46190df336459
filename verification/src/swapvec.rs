//! A vector that spills to a file once it grows past a threshold.
//!
//! `SwapVec` keeps pushed elements in memory until there are more than
//! `swap_after` of them; from then on, whenever more than `batch_size` elements
//! are held in memory, the oldest `batch_size` of them leave as one batch for
//! the spill file. Iterating gives back the spilled batches in order, then the
//! elements still in memory.
//!
//! Creating the file, encoding a batch to bytes and moving bytes to and from
//! the file are done by the caller: the types here take each decision and say
//! which piece of that work comes next (`PushWork`, `NextStep`), and are told
//! how it went.

use vstd::prelude::*;
use std::collections::VecDeque;
use crate::batch::{BatchInfo, BatchReader, BatchWriter, total_bytes};
use crate::deque_index::VecDequeIndex;
use crate::decimal::{push_decimal, decimal_digits};

verus! {

/// `std::io::ErrorKind`, carried opaque inside [`SwapVecError::Other`].
#[verifier::external_type_specification]
#[verifier::external_body]
pub struct ExIoErrorKind(std::io::ErrorKind);

/// Whether an I/O error kind is `ErrorKind::PermissionDenied` (a function of
/// the kind alone; `ErrorKind` is opaque here, so its variants cannot be named
/// in contracts).
pub uninterp spec fn is_permission_denied(kind: std::io::ErrorKind) -> bool;

/// Whether `kind` is `ErrorKind::PermissionDenied`: the answer is
/// [`is_permission_denied`] of `kind`.
#[verifier::external_body]
fn io_kind_is_permission_denied(kind: &std::io::ErrorKind) -> (b: bool)
    ensures
        b == is_permission_denied(*kind),
{
    matches!(kind, std::io::ErrorKind::PermissionDenied)
}

/// What can go wrong while spilling to or reading back from the file.
#[derive(Debug)]
pub enum SwapVecError {
    /// The file could not be created or accessed for lack of permission.
    MissingPermissions,
    /// The disk is full.
    OutOfDisk,
    /// A batch could not be encoded or decoded; the message says why.
    SerializationFailed(String),
    /// Any other I/O failure, by its kind.
    Other(std::io::ErrorKind),
}

impl SwapVecError {
    /// The error for an I/O failure of kind `kind`, given whether that kind is
    /// `PermissionDenied`.
    pub fn from_io_kind_parts(permission_denied: bool, kind: std::io::ErrorKind) -> (e: SwapVecError)
        ensures
            permission_denied ==> e is MissingPermissions,
            !permission_denied ==> e == SwapVecError::Other(kind),
    {
        if permission_denied {
            SwapVecError::MissingPermissions
        } else {
            SwapVecError::Other(kind)
        }
    }

    /// The error for an I/O failure of kind `kind`: `PermissionDenied` becomes
    /// `MissingPermissions`, every other kind is kept as `Other`.
    pub fn from_io_kind(kind: std::io::ErrorKind) -> (e: SwapVecError)
        ensures
            is_permission_denied(kind) ==> e is MissingPermissions,
            !is_permission_denied(kind) ==> e == SwapVecError::Other(kind),
    {
        let denied = io_kind_is_permission_denied(&kind);
        SwapVecError::from_io_kind_parts(denied, kind)
    }
}

/// When to start spilling, and how many elements go into one batch.
#[derive(Debug, Clone, Copy)]
pub struct SwapVecConfig {
    /// The number of elements held in memory before the first spill.
    pub swap_after: usize,
    /// The number of elements of one spilled batch.
    pub batch_size: usize,
}

impl Default for SwapVecConfig {
    fn default() -> (c: SwapVecConfig)
        ensures
            c.swap_after == 32 * 1024 * 1024,
            c.batch_size == 32 * 1024,
    {
        SwapVecConfig { swap_after: 33554432, batch_size: 32768 }
    }
}

/// What remains to be done after an element was pushed.
pub enum PushWork<T> {
    /// Nothing: the push is complete.
    Done,
    /// A spill is due but there is no file yet: create it, call
    /// [`SwapVec::attach_file`], then [`SwapVec::after_push_work`] again.
    NeedFile,
    /// Encode this batch and append its bytes to the file, then call
    /// [`SwapVec::record_batch`] with those bytes.
    Spill(Vec<T>),
}

/// The concatenation of `batches`, in order.
pub open spec fn concat<T>(batches: Seq<Seq<T>>) -> Seq<T> {
    batches.flatten()
}

/// The decision of a push, in a vector `before` that holds `mem` in memory,
/// and its effect on the vector, `after`.
pub open spec fn push_work_post<T>(
    mem: Seq<T>,
    before: SwapVec<T>,
    after: SwapVec<T>,
    work: PushWork<T>,
) -> bool {
    let cfg = before.spec_config();
    let spill_due = !(mem.len() <= cfg.batch_size || (!before.has_file() && mem.len()
        <= cfg.swap_after));
    &&& after.spec_config() == cfg
    &&& after.has_file() == before.has_file()
    &&& after.file_records() == before.file_records()
    &&& after.spilled() == before.spilled()
    &&& !spill_due ==> work is Done && after.memory() == mem && after.in_flight()
        == before.in_flight()
    &&& spill_due && !before.has_file() ==> work is NeedFile && after.memory() == mem
        && after.in_flight() == before.in_flight()
    &&& spill_due && before.has_file() ==> {
        &&& work matches PushWork::Spill(batch) && batch@ == mem.take(cfg.batch_size as int)
        &&& after.memory() == mem.skip(cfg.batch_size as int)
        &&& after.in_flight() == Some(mem.take(cfg.batch_size as int))
    }
}

/// A vector that spills batches of its oldest elements to a file.
pub struct SwapVec<T> {
    tempfile: Option<BatchWriter>,
    vector: VecDeque<T>,
    config: SwapVecConfig,
    awaiting_write: bool,
    /// The batches whose bytes were recorded in `tempfile`, in order.
    written: Ghost<Seq<Seq<T>>>,
    /// The batch handed out by the last spill, while its bytes are not recorded.
    pending: Ghost<Seq<T>>,
}

impl<T> SwapVec<T> {
    /// The invariant: one record per spilled batch, every spilled (or
    /// spilling) batch holds exactly `batch_size` elements.
    pub closed spec fn wf(&self) -> bool {
        &&& match self.tempfile {
            Some(w) => w@.len() == self.written@.len(),
            None => self.written@.len() == 0,
        }
        &&& forall|i: int|
            0 <= i < self.written@.len() ==> (#[trigger] self.written@[i]).len()
                == self.config.batch_size
        &&& self.awaiting_write ==> self.tempfile is Some && self.pending@.len()
            == self.config.batch_size
    }

    /// The configuration.
    pub closed spec fn spec_config(&self) -> SwapVecConfig {
        self.config
    }

    /// The elements held in memory, oldest first.
    pub closed spec fn memory(&self) -> Seq<T> {
        self.vector@
    }

    /// The batches recorded in the file, in order.
    pub closed spec fn spilled(&self) -> Seq<Seq<T>> {
        self.written@
    }

    /// Whether the file exists.
    pub closed spec fn has_file(&self) -> bool {
        self.tempfile is Some
    }

    /// The records of the file's batches (empty without a file).
    pub closed spec fn file_records(&self) -> Seq<BatchInfo> {
        match self.tempfile {
            Some(w) => w@,
            None => Seq::empty(),
        }
    }

    /// The batch handed out by the last spill whose bytes are not recorded yet.
    pub closed spec fn in_flight(&self) -> Option<Seq<T>> {
        if self.awaiting_write {
            Some(self.pending@)
        } else {
            None
        }
    }

    /// What iterating gives back: the spilled batches in order, then the
    /// elements held in memory.
    pub open spec fn contents(&self) -> Seq<T> {
        concat(self.spilled()) + self.memory()
    }

    /// The elements this vector holds, counting a batch on its way to the file.
    pub open spec fn held(&self) -> Seq<T> {
        match self.in_flight() {
            Some(b) => concat(self.spilled()) + b + self.memory(),
            None => self.contents(),
        }
    }

    /// An empty vector with the given configuration.
    pub fn with_config(config: SwapVecConfig) -> (v: SwapVec<T>)
        ensures
            v.wf(),
            v.spec_config() == config,
            v.memory() == Seq::<T>::empty(),
            v.spilled() == Seq::<Seq<T>>::empty(),
            !v.has_file(),
            v.in_flight() is None,
    {
        SwapVec {
            tempfile: None,
            vector: VecDeque::new(),
            config,
            awaiting_write: false,
            written: Ghost(Seq::empty()),
            pending: Ghost(Seq::empty()),
        }
    }

    /// Whether a file exists.
    pub fn written_to_file(&self) -> (b: bool)
        ensures
            b == self.has_file(),
    {
        self.tempfile.is_some()
    }

    /// The number of batches in the file.
    pub fn batches_written(&self) -> (n: usize)
        ensures
            n == self.file_records().len(),
    {
        match &self.tempfile {
            None => 0,
            Some(f) => f.batch_count(),
        }
    }

    /// The number of bytes in the file, or `None` without a file.
    pub fn file_size(&self) -> (n: Option<usize>)
        requires
            total_bytes(self.file_records()) <= usize::MAX,
        ensures
            !self.has_file() ==> n is None,
            self.has_file() ==> n == Some(total_bytes(self.file_records()) as usize),
    {
        match &self.tempfile {
            None => None,
            Some(f) => Some(f.bytes_written()),
        }
    }

    /// The configuration.
    pub fn config(&self) -> (c: SwapVecConfig)
        ensures
            c == self.spec_config(),
    {
        self.config
    }

    /// Whether the number of bytes in the file fits in `usize` (so that
    /// [`Self::file_size`] can tell it).
    pub fn file_size_in_range(&self) -> (b: bool)
        ensures
            b == (total_bytes(self.file_records()) <= usize::MAX),
    {
        match &self.tempfile {
            None => true,
            Some(f) => f.checked_bytes_written().is_some(),
        }
    }

    /// Whether the last spill's bytes are still to be recorded.
    pub fn awaiting_write(&self) -> (b: bool)
        ensures
            b == (self.in_flight() is Some),
    {
        self.awaiting_write
    }

    /// The number of elements held in memory.
    pub fn elements_in_memory(&self) -> (n: usize)
        ensures
            n == self.memory().len(),
    {
        self.vector.len()
    }

    /// Appends `element`, then decides what else the push has to do (as
    /// [`Self::after_push_work`] does).
    pub fn push(&mut self, element: T) -> (work: PushWork<T>)
        requires
            old(self).wf(),
        ensures
            final(self).wf(),
            push_work_post(old(self).memory().push(element), *old(self), *final(self), work),
            old(self).has_file() ==> ((work is Spill) <==> old(self).memory().len() + 1
                > old(self).spec_config().batch_size),
            old(self).in_flight() is None ==> final(self).held() == old(self).held().push(element),
    {
        self.vector.push_back(element);
        proof {
            assert(self.memory() == old(self).memory().push(element));
            assert(self.held() =~= old(self).held().push(element)) by {
                if old(self).in_flight() is None {
                    assert(self.contents() =~= old(self).contents().push(element));
                }
            }
        }
        let ghost mid = *self;
        let work = self.after_push_work();
        proof {
            if old(self).in_flight() is None {
                assert(mid.held() == old(self).held().push(element));
            }
        }
        work
    }

    /// Decides what a push still has to do: nothing while there are at most
    /// `batch_size` elements in memory, or there is no file yet and at most
    /// `swap_after` of them; otherwise a spill, which first needs a file. A
    /// spill takes the oldest `batch_size` elements out of memory.
    pub fn after_push_work(&mut self) -> (work: PushWork<T>)
        requires
            old(self).wf(),
        ensures
            final(self).wf(),
            push_work_post(old(self).memory(), *old(self), *final(self), work),
            old(self).has_file() ==> ((work is Spill) <==> old(self).memory().len()
                > old(self).spec_config().batch_size),
            work matches PushWork::Spill(batch) ==> batch@.len() == old(
                self,
            ).spec_config().batch_size && batch@ + final(self).memory() == old(self).memory(),
            old(self).in_flight() is None ==> final(self).held() == old(self).held(),
    {
        if self.vector.len() <= self.config.batch_size {
            return PushWork::Done;
        }
        if self.tempfile.is_none() && self.vector.len() <= self.config.swap_after {
            return PushWork::Done;
        }
        if self.tempfile.is_none() {
            return PushWork::NeedFile;
        }
        let n = self.config.batch_size;
        let mut batch: Vec<T> = Vec::new();
        let ghost start = self.vector@;
        let mut k: usize = 0;
        while k < n
            invariant
                k <= n,
                n < start.len(),
                batch@ == start.take(k as int),
                self.vector@ == start.skip(k as int),
                n == self.config.batch_size,
                self.config == old(self).config,
                self.tempfile == old(self).tempfile,
                self.tempfile is Some,
                self.written == old(self).written,
                self.pending == old(self).pending,
                self.awaiting_write == old(self).awaiting_write,
                old(self).wf(),
            decreases n - k,
        {
            let x = self.vector.pop_front();
            proof {
                assert(self.vector@ =~= start.skip(k + 1));
            }
            match x {
                Some(x) => {
                    batch.push(x);
                },
                None => {},
            }
            assert(batch@ =~= start.take(k + 1));
            k = k + 1;
        }
        self.awaiting_write = true;
        self.pending = Ghost(batch@);
        proof {
            assert(start =~= start.take(n as int) + start.skip(n as int));
        }
        PushWork::Spill(batch)
    }

    /// Creates the file's records (if there is no file yet), once the caller
    /// has created the file itself.
    pub fn attach_file(&mut self)
        requires
            old(self).wf(),
        ensures
            final(self).wf(),
            final(self).has_file(),
            old(self).has_file() ==> *final(self) == *old(self),
            !old(self).has_file() ==> final(self).file_records() == Seq::<BatchInfo>::empty()
                && final(self).memory() == old(self).memory() && final(self).spilled()
                == old(self).spilled() && final(self).in_flight() == old(self).in_flight()
                && final(self).spec_config() == old(self).spec_config(),
    {
        if self.tempfile.is_none() {
            self.tempfile = Some(BatchWriter::new());
        }
    }

    /// Records that `buffer`, the encoding of the batch handed out by the last
    /// spill, has been appended to the file.
    pub fn record_batch(&mut self, buffer: &[u8])
        requires
            old(self).wf(),
            old(self).in_flight() is Some,
        ensures
            final(self).wf(),
            final(self).spec_config() == old(self).spec_config(),
            final(self).has_file(),
            final(self).in_flight() is None,
            final(self).memory() == old(self).memory(),
            final(self).spilled() == old(self).spilled().push(old(self).in_flight().unwrap()),
            final(self).file_records().drop_last() == old(self).file_records(),
            final(self).file_records().len() == old(self).file_records().len() + 1,
            final(self).file_records().last().bytes == buffer@.len(),
            final(self).held() == old(self).held(),
    {
        let ghost b = self.pending@;
        match &mut self.tempfile {
            Some(w) => {
                w.write_batch(buffer);
            },
            None => {},
        }
        self.awaiting_write = false;
        self.written = Ghost(self.written@.push(b));
        proof {
            broadcast use Seq::lemma_flatten_push;
            assert(concat(self.spilled()) == concat(old(self).spilled()) + b);
            assert(self.held() =~= old(self).held());
        }
    }

    /// A one-line description: the number of elements in memory and the number
    /// of elements in the file (batches times batch size).
    pub fn describe(&self) -> (s: String)
        requires
            self.file_records().len() * self.spec_config().batch_size <= usize::MAX,
        ensures
            s@ == "SwapVec {elements_in_ram: "@ + decimal_digits(self.memory().len())
                + ", elements_in_file: "@ + decimal_digits(
                (self.file_records().len() * self.spec_config().batch_size) as nat,
            ) + "}"@,
    {
        let mut s = String::from_str("SwapVec {elements_in_ram: ");
        push_decimal(&mut s, self.vector.len() as u64);
        s.append(", elements_in_file: ");
        let batches = self.batches_written();
        push_decimal(&mut s, (batches * self.config.batch_size) as u64);
        s.append("}");
        s
    }
}

impl<T> Default for SwapVec<T> {
    fn default() -> (v: SwapVec<T>)
        ensures
            v.wf(),
            v.spec_config().swap_after == 32 * 1024 * 1024,
            v.spec_config().batch_size == 32 * 1024,
            v.memory() == Seq::<T>::empty(),
            v.spilled() == Seq::<Seq<T>>::empty(),
            !v.has_file(),
            v.in_flight() is None,
    {
        SwapVec::with_config(SwapVecConfig::default())
    }
}

impl<T> SwapVec<T> {
    /// Starts iterating, once the caller has flushed the file and rewound it to
    /// its start (`reopened` says how that went). Without a file `reopened` is
    /// not looked at. Where the file could not be reopened, its batches are left
    /// out and only the elements in memory are given back.
    pub fn into_iter(self, reopened: Result<(), SwapVecError>) -> (it: SwapVecIter<T>)
        requires
            self.wf(),
        ensures
            it.wf(),
            it.spec_config() == self.spec_config(),
            it.staged() == Seq::<T>::empty(),
            it.awaited() is None,
            it.memory_left() == self.memory(),
            it.has_file() == (self.has_file() && reopened is Ok),
            it.has_file() ==> it.batches_left() == self.spilled() && it.records_left()
                == self.file_records(),
            !(self.has_file() && reopened is Err) ==> it.deferred_error() is None,
            self.has_file() && reopened is Err ==> it.deferred_error() == Some(reopened->Err_0),
            !self.has_file() || reopened is Ok ==> it.remaining() == self.contents(),
            self.has_file() && reopened is Err ==> it.remaining() == self.memory(),
            (!self.has_file() || reopened is Ok) && self.in_flight() is None ==> it.remaining()
                == self.held(),
            it.at_start(),
            it.all_memory() == self.memory(),
            it.has_file() ==> it.all_batches() == self.spilled() && it.all_records()
                == self.file_records(),
            !it.has_file() ==> it.all_batches() == Seq::<Seq<T>>::empty() && it.all_records()
                == Seq::<BatchInfo>::empty(),
    {
        let config = self.config;
        let ghost written = self.written@;
        let (tempfile, new_error) = match self.tempfile {
            None => (None, None),
            Some(w) => match reopened {
                Ok(()) => (Some(w.into_reader()), None),
                Err(e) => (None, Some(e)),
            },
        };
        let it = SwapVecIter {
            new_error,
            current_batch_rev: Vec::with_capacity(config.batch_size),
            tempfile,
            last_elements: VecDequeIndex::from_deque(self.vector),
            last_elements_index: 0,
            config,
            batches: Ghost(written),
            awaiting: Ghost(None),
        };
        proof {
            assert(it.staged() =~= Seq::<T>::empty());
            assert(it.memory_left() =~= self.memory());
            if it.has_file() {
                assert(it.batches_left() =~= written);
                assert(it.records_left() =~= self.file_records());
            } else {
                assert(concat(it.batches_left()) =~= Seq::<T>::empty());
            }
            if !self.has_file() {
                assert(concat(self.spilled()) =~= Seq::<T>::empty());
            }
            assert(it.remaining() =~= concat(it.batches_left()) + it.memory_left());
        }
        it
    }
}

/// What the iterator needs next.
pub enum NextStep<T> {
    /// The answer of this step, as `Iterator::next` gives it: an element, an
    /// error, or `None` at the end.
    Yield(Option<Result<T, SwapVecError>>),
    /// Read the file's next batch, this many bytes, decode it, and hand the
    /// outcome to [`SwapVecIter::next_with_batch`].
    NeedBatch(usize),
}

/// How a step's answer relates what was left to give back before (`before`)
/// and after (`after`): an element is the head of `before` (or a clone of it)
/// and is consumed; an error consumes nothing; the end comes only once
/// nothing is left.
pub open spec fn yields_head<T: Clone>(
    before: Seq<T>,
    after: Seq<T>,
    r: Option<Result<T, SwapVecError>>,
) -> bool {
    match r {
        Some(Ok(x)) => before.len() > 0 && cloned(before[0], x) && after == before.drop_first(),
        Some(Err(_)) => after == before,
        None => before.len() == 0 && after == before,
    }
}

/// Gives back a [`SwapVec`]'s elements: the file's batches in order, then the
/// elements that were in memory.
pub struct SwapVecIter<T> {
    new_error: Option<SwapVecError>,
    current_batch_rev: Vec<T>,
    tempfile: Option<BatchReader>,
    last_elements: VecDequeIndex<T>,
    last_elements_index: usize,
    config: SwapVecConfig,
    /// The batches the file holds, in order.
    batches: Ghost<Seq<Seq<T>>>,
    /// The batch whose bytes the caller is fetching.
    awaiting: Ghost<Option<Seq<T>>>,
}

impl<T> SwapVecIter<T> {
    pub closed spec fn wf(&self) -> bool {
        &&& match self.tempfile {
            Some(r) => r.wf() && r.infos().len() == self.batches@.len(),
            None => true,
        }
        &&& forall|i: int|
            0 <= i < self.batches@.len() ==> (#[trigger] self.batches@[i]).len()
                == self.config.batch_size
        &&& self.last_elements_index <= self.last_elements@.len()
        &&& self.awaiting@ matches Some(b) ==> b.len() == self.config.batch_size
    }

    /// The configuration.
    pub closed spec fn spec_config(&self) -> SwapVecConfig {
        self.config
    }

    /// Whether batches are read from the file.
    pub closed spec fn has_file(&self) -> bool {
        self.tempfile is Some
    }

    /// The rest of the batch being handed out, in order.
    pub closed spec fn staged(&self) -> Seq<T> {
        self.current_batch_rev@.reverse()
    }

    /// An error to report before the next batch is read.
    pub closed spec fn deferred_error(&self) -> Option<SwapVecError> {
        self.new_error
    }

    /// The batch whose bytes the caller is fetching, if any.
    pub closed spec fn awaited(&self) -> Option<Seq<T>> {
        self.awaiting@
    }

    /// Every batch of the file (empty without a file).
    pub closed spec fn all_batches(&self) -> Seq<Seq<T>> {
        if self.tempfile is Some {
            self.batches@
        } else {
            Seq::empty()
        }
    }

    /// The batches of the file not read yet (empty without a file).
    pub closed spec fn batches_left(&self) -> Seq<Seq<T>> {
        match self.tempfile {
            Some(r) => self.batches@.skip(r.position() as int),
            None => Seq::empty(),
        }
    }

    /// The records of the batches not read yet (empty without a file).
    pub closed spec fn records_left(&self) -> Seq<BatchInfo> {
        match self.tempfile {
            Some(r) => r.infos().skip(r.position() as int),
            None => Seq::empty(),
        }
    }

    /// The records of every batch of the file (empty without a file).
    pub closed spec fn all_records(&self) -> Seq<BatchInfo> {
        match self.tempfile {
            Some(r) => r.infos(),
            None => Seq::empty(),
        }
    }

    /// Nothing given back yet: no batch being handed out or fetched, every
    /// batch of the file and every element that was in memory still to come.
    pub open spec fn at_start(&self) -> bool {
        &&& self.staged() == Seq::<T>::empty()
        &&& self.awaited() is None
        &&& self.batches_left() == self.all_batches()
        &&& self.records_left() == self.all_records()
        &&& self.memory_left() == self.all_memory()
    }

    /// Every element that was in memory.
    pub closed spec fn all_memory(&self) -> Seq<T> {
        self.last_elements@
    }

    /// The elements that were in memory and are not given back yet.
    pub closed spec fn memory_left(&self) -> Seq<T> {
        self.last_elements@.skip(self.last_elements_index as int)
    }

    /// What is left to give back, provided each batch read from the file
    /// decodes to the batch that was written.
    pub open spec fn remaining(&self) -> Seq<T> {
        self.staged() + match self.awaited() {
            Some(b) => b,
            None => Seq::empty(),
        } + concat(self.batches_left()) + self.memory_left()
    }

    /// Whether batches are read from the file.
    pub fn reads_file(&self) -> (b: bool)
        ensures
            b == self.has_file(),
    {
        self.tempfile.is_some()
    }
}

/// The concatenation of batches that are all empty is empty.
pub proof fn lemma_concat_of_empty_batches<T>(batches: Seq<Seq<T>>)
    requires
        forall|i: int| 0 <= i < batches.len() ==> (#[trigger] batches[i]).len() == 0,
    ensures
        concat(batches) == Seq::<T>::empty(),
    decreases batches.len(),
{
    if batches.len() > 0 {
        assert forall|i: int| 0 <= i < batches.drop_first().len() implies (
        #[trigger] batches.drop_first()[i]).len() == 0 by {
            assert(batches.drop_first()[i] == batches[i + 1]);
        }
        lemma_concat_of_empty_batches(batches.drop_first());
        assert(batches.first().len() == 0);
        assert(concat(batches) =~= Seq::<T>::empty());
    }
}

/// The concatenation of the batches from position `p` on is batch `p`
/// followed by the concatenation of those after it.
pub proof fn lemma_concat_skip<T>(batches: Seq<Seq<T>>, p: int)
    requires
        0 <= p < batches.len(),
    ensures
        concat(batches.skip(p)) == batches[p] + concat(batches.skip(p + 1)),
{
    assert(batches.skip(p).drop_first() =~= batches.skip(p + 1));
    assert(batches.skip(p).first() == batches[p]);
}

/// Two iterators at their start over the same file batches and the same
/// elements from memory have everything left to give back in common: a reset
/// (with the file rewound) puts an iterator where a fresh one starts.
pub proof fn lemma_start_is_fresh<T>(a: SwapVecIter<T>, b: SwapVecIter<T>)
    requires
        a.at_start(),
        b.at_start(),
        a.has_file() == b.has_file(),
        a.all_batches() == b.all_batches(),
        a.all_records() == b.all_records(),
        a.all_memory() == b.all_memory(),
    ensures
        a.remaining() == b.remaining(),
        a.remaining() == concat(a.all_batches()) + a.all_memory(),
        a.staged() == b.staged(),
        a.awaited() == b.awaited(),
        a.batches_left() == b.batches_left(),
        a.records_left() == b.records_left(),
        a.memory_left() == b.memory_left(),
{
    assert(a.remaining() =~= concat(a.all_batches()) + a.all_memory());
    assert(b.remaining() =~= concat(b.all_batches()) + b.all_memory());
}

/// The answers of a run of iterator steps, each relating what was left to
/// give back before and after it as [`yields_head`] does, with no error among
/// them: answer `i` is element `i` (or a clone of it) of what was left at the
/// start, for as long as anything was left, and the end (`None`) from then on.
///
/// Each answer of `Iterator::next` on a [`SwapVecIter`] is such a step: by
/// [`SwapVecIter::next`]'s contract, and, after a `NeedBatch`, by
/// [`SwapVecIter::next_with_batch`]'s, provided the batch handed in is the one
/// that was written. From [`SwapVec::into_iter`], what is left at the start is
/// everything the vector holds, oldest first.
pub proof fn lemma_answers_in_order<T: Clone>(
    left: Seq<Seq<T>>,
    answers: Seq<Option<Result<T, SwapVecError>>>,
)
    requires
        left.len() == answers.len() + 1,
        forall|i: int| 0 <= i < answers.len() ==> yields_head(left[i], left[i + 1], #[trigger] answers[i]),
        forall|i: int| 0 <= i < answers.len() ==> !(#[trigger] answers[i] matches Some(Err(_))),
    ensures
        forall|i: int|
            0 <= i < answers.len() && i < left[0].len() ==> (#[trigger] answers[i] is Some
                && answers[i]->Some_0 is Ok && cloned(left[0][i], answers[i]->Some_0->Ok_0)),
        forall|i: int| 0 <= i < answers.len() && i >= left[0].len() ==> #[trigger] answers[i] is None,
    decreases answers.len(),
{
    if answers.len() > 0 {
        let l2 = left.drop_first();
        let a2 = answers.drop_first();
        assert forall|i: int| 0 <= i < a2.len() implies yields_head(l2[i], l2[i + 1], #[trigger] a2[i]) by {
            assert(l2[i] == left[i + 1]);
            assert(l2[i + 1] == left[i + 2]);
            assert(a2[i] == answers[i + 1]);
        }
        assert forall|i: int| 0 <= i < a2.len() implies !(#[trigger] a2[i] matches Some(Err(_))) by {
            assert(a2[i] == answers[i + 1]);
        }
        lemma_answers_in_order(l2, a2);
        assert(yields_head(left[0], left[1], answers[0]));
        assert(!(answers[0] matches Some(Err(_))));
        assert forall|i: int| 0 <= i < answers.len() && i < left[0].len() implies (
        #[trigger] answers[i] is Some && answers[i]->Some_0 is Ok && cloned(
            left[0][i],
            answers[i]->Some_0->Ok_0,
        )) by {
            if i > 0 {
                assert(answers[i] == a2[i - 1]);
                assert(left[1] == left[0].drop_first());
                assert(l2[0] == left[1]);
                assert(left[0][i] == l2[0][i - 1]);
            }
        }
        assert forall|i: int| 0 <= i < answers.len() && i >= left[0].len() implies #[trigger] answers[i] is None by {
            if i > 0 {
                assert(answers[i] == a2[i - 1]);
                assert(l2[0] == left[1]);
                if left[0].len() > 0 {
                    assert(left[1] == left[0].drop_first());
                } else {
                    assert(answers[0] is None);
                    assert(left[1] == left[0]);
                }
            }
        }
    }
}

/// The number of batch requests (`Some`) among the first `i` steps.
pub open spec fn requests_before(steps: Seq<Option<usize>>, i: int) -> nat
    decreases i,
{
    if i <= 0 {
        0
    } else {
        requests_before(steps, i - 1) + if steps[i - 1] is Some {
            1nat
        } else {
            0nat
        }
    }
}

/// The batch requests of a run of iterator steps come in the order of the
/// file's records: in a run where each step either leaves the records still to
/// read as they are (`None`) or asks for the next one's bytes (`Some(n)`) and
/// moves past it, as [`SwapVecIter::next`] and
/// [`SwapVecIter::next_with_batch`] do, the `k`-th request is for the bytes of
/// the `k`-th record that was left at the start.
pub proof fn lemma_requests_in_record_order(
    records: Seq<Seq<BatchInfo>>,
    steps: Seq<Option<usize>>,
)
    requires
        records.len() == steps.len() + 1,
        forall|i: int|
            0 <= i < steps.len() ==> (#[trigger] steps[i] is None ==> records[i + 1] == records[i]),
        forall|i: int|
            0 <= i < steps.len() ==> (#[trigger] steps[i] is Some ==> records[i].len() > 0
                && steps[i]->Some_0 == records[i][0].bytes && records[i + 1]
                == records[i].drop_first()),
    ensures
        forall|i: int|
            0 <= i <= steps.len() ==> requests_before(steps, i) <= records[0].len() && #[trigger] records[i]
                == records[0].skip(requests_before(steps, i) as int),
        forall|i: int|
            0 <= i < steps.len() && #[trigger] steps[i] is Some ==> steps[i]->Some_0
                == records[0][requests_before(steps, i) as int].bytes,
    decreases steps.len(),
{
    assert(records[0] =~= records[0].skip(0));
    if steps.len() > 0 {
        let n = (steps.len() - 1) as int;
        let r2 = records.take(n + 1);
        let s2 = steps.take(n);
        assert forall|i: int| 0 <= i < s2.len() && #[trigger] s2[i] is None implies r2[i + 1]
            == r2[i] by {
            assert(s2[i] == steps[i]);
        }
        assert forall|i: int| 0 <= i < s2.len() && #[trigger] s2[i] is Some implies r2[i].len()
            > 0 && s2[i]->Some_0 == r2[i][0].bytes && r2[i + 1] == r2[i].drop_first() by {
            assert(s2[i] == steps[i]);
        }
        lemma_requests_in_record_order(r2, s2);
        assert forall|i: int| 0 <= i <= n implies requests_before(s2, i) == requests_before(steps, i) by {
            lemma_requests_prefix(steps, n, i);
        }
        let c = requests_before(steps, n);
        assert(records[n] == r2[n]);
        assert(records[n] == records[0].skip(c as int));
        if steps[n] is Some {
            assert(records[n + 1] =~= records[0].skip(c + 1int));
            assert(records[n][0] == records[0][c as int]);
        } else {
            assert(records[n + 1] =~= records[0].skip(c as int));
        }
        assert forall|i: int| 0 <= i <= steps.len() implies requests_before(steps, i) <= records[0].len() && #[trigger] records[i]
            == records[0].skip(requests_before(steps, i) as int) by {
            if i <= n {
                assert(records[i] == r2[i]);
            }
        }
        assert forall|i: int| 0 <= i < steps.len() && #[trigger] steps[i] is Some implies steps[i]->Some_0
            == records[0][requests_before(steps, i) as int].bytes by {
            if i < n {
                assert(s2[i] == steps[i]);
            }
        }
    }
}

proof fn lemma_requests_prefix(steps: Seq<Option<usize>>, n: int, i: int)
    requires
        0 <= i <= n <= steps.len(),
    ensures
        requests_before(steps.take(n), i) == requests_before(steps, i),
    decreases i,
{
    if i > 0 {
        lemma_requests_prefix(steps, n, i - 1);
        assert(steps.take(n)[i - 1] == steps[i - 1]);
    }
}

impl<T: Clone> SwapVecIter<T> {
    /// Hands out the next element that was in memory, or `None` past the last.
    fn next_in_memory(&mut self) -> (r: Option<Result<T, SwapVecError>>)
        requires
            old(self).wf(),
        ensures
            final(self).wf(),
            final(self).new_error == old(self).new_error,
            final(self).current_batch_rev == old(self).current_batch_rev,
            final(self).tempfile == old(self).tempfile,
            final(self).batches == old(self).batches,
            final(self).awaiting == old(self).awaiting,
            final(self).config == old(self).config,
            final(self).last_elements@ == old(self).last_elements@,
            yields_head(old(self).memory_left(), final(self).memory_left(), r),
            r matches Some(res) ==> res is Ok,
    {
        let index = self.last_elements_index;
        if index < self.last_elements.len() {
            let x = self.last_elements.get(index);
            self.last_elements_index = index + 1;
            assert(self.memory_left() =~= old(self).memory_left().drop_first());
            match x {
                Some(v) => Some(Ok(v)),
                None => None,
            }
        } else {
            assert(self.memory_left() =~= Seq::<T>::empty());
            None
        }
    }

    /// Takes the next step: an element of the batch being handed out; else,
    /// while there is a file, a deferred error or a request for the next batch;
    /// else the next element that was in memory, or the end.
    pub fn next(&mut self) -> (step: NextStep<T>)
        requires
            old(self).wf(),
        ensures
            final(self).wf(),
            final(self).spec_config() == old(self).spec_config(),
            final(self).has_file() == old(self).has_file(),
            final(self).all_batches() == old(self).all_batches(),
            final(self).all_memory() == old(self).all_memory(),
            old(self).staged().len() > 0 ==> {
                &&& step == NextStep::Yield(Some(Ok::<T, SwapVecError>(old(self).staged()[0])))
                &&& final(self).staged() == old(self).staged().drop_first()
                &&& final(self).batches_left() == old(self).batches_left()
                &&& final(self).memory_left() == old(self).memory_left()
                &&& final(self).deferred_error() == old(self).deferred_error()
                &&& final(self).awaited() == old(self).awaited()
            },
            old(self).staged().len() == 0 && old(self).has_file() && old(self).deferred_error() is Some
                ==> {
                &&& step == NextStep::<T>::Yield(
                    Some(Err(old(self).deferred_error().unwrap())),
                )
                &&& final(self).deferred_error() is None
                &&& final(self).staged() == old(self).staged()
                &&& final(self).batches_left() == old(self).batches_left()
                &&& final(self).memory_left() == old(self).memory_left()
                &&& final(self).awaited() == old(self).awaited()
            },
            old(self).staged().len() == 0 && old(self).has_file() && old(self).deferred_error() is None
                && old(self).batches_left().len() > 0 ==> {
                &&& step == NextStep::<T>::NeedBatch(old(self).records_left()[0].bytes)
                &&& final(self).awaited() == Some(old(self).batches_left()[0])
                &&& final(self).batches_left() == old(self).batches_left().drop_first()
                &&& final(self).records_left() == old(self).records_left().drop_first()
                &&& final(self).staged() == old(self).staged()
                &&& final(self).memory_left() == old(self).memory_left()
                &&& final(self).deferred_error() is None
            },
            old(self).staged().len() == 0 && (!old(self).has_file() || (old(self).deferred_error()
                is None && old(self).batches_left().len() == 0)) ==> {
                &&& step matches NextStep::Yield(r) && yields_head(
                    old(self).memory_left(),
                    final(self).memory_left(),
                    r,
                ) && !(r matches Some(Err(_)))
                &&& final(self).staged() == old(self).staged()
                &&& final(self).batches_left() == old(self).batches_left()
                &&& final(self).deferred_error() == old(self).deferred_error()
                &&& final(self).awaited() == old(self).awaited()
            },
            !(step is NeedBatch) ==> final(self).records_left() == old(self).records_left(),
            old(self).awaited() is None ==> match step {
                NextStep::Yield(r) => yields_head(old(self).remaining(), final(self).remaining(), r),
                NextStep::NeedBatch(_) => final(self).remaining() == old(self).remaining(),
            },
    {
        if let Some(item) = self.current_batch_rev.pop() {
            proof {
                assert(self.staged() =~= old(self).staged().drop_first());
                assert(old(self).staged()[0] == item);
                assert(self.remaining() =~= old(self).remaining().drop_first());
            }
            return NextStep::Yield(Some(Ok(item)));
        }
        if self.tempfile.is_none() {
            let r = self.next_in_memory();
            proof {
                if old(self).awaited() is None {
                    assert(self.remaining() =~= self.memory_left());
                    assert(old(self).remaining() =~= old(self).memory_left());
                }
            }
            return NextStep::Yield(r);
        }
        if let Some(err) = self.new_error.take() {
            return NextStep::Yield(Some(Err(err)));
        }
        let ghost pos = self.tempfile.unwrap().position();
        let read = match &mut self.tempfile {
            Some(reader) => reader.read_batch(),
            None => None,
        };
        match read {
            Some(n) => {
                proof {
                    self.awaiting = Ghost(Some(self.batches@[pos as int]));
                    lemma_concat_skip(self.batches@, pos as int);
                    assert(self.batches_left() =~= old(self).batches_left().drop_first());
                    assert(self.records_left() =~= old(self).records_left().drop_first());
                }
                NextStep::NeedBatch(n)
            },
            None => {
                proof {
                    old(self).tempfile.unwrap().lemma_position_bounded();
                    assert(old(self).batches_left() =~= Seq::<Seq<T>>::empty());
                }
                let r = self.next_in_memory();
                proof {
                    assert(self.batches_left() =~= Seq::<Seq<T>>::empty());
                    if old(self).awaited() is None {
                        assert(self.remaining() =~= self.memory_left());
                        assert(old(self).remaining() =~= old(self).memory_left());
                    }
                }
                NextStep::Yield(r)
            },
        }
    }

    /// Continues a step that asked for a batch, with the outcome of reading and
    /// decoding it: an error is the step's answer; a batch becomes the batch
    /// being handed out, and its first element the answer (an empty batch gives
    /// way to the next element that was in memory).
    pub fn next_with_batch(&mut self, fetched: Result<Vec<T>, SwapVecError>) -> (r: Option<
        Result<T, SwapVecError>,
    >)
        requires
            old(self).wf(),
            old(self).awaited() is Some,
        ensures
            final(self).wf(),
            final(self).spec_config() == old(self).spec_config(),
            final(self).has_file() == old(self).has_file(),
            final(self).all_batches() == old(self).all_batches(),
            final(self).all_memory() == old(self).all_memory(),
            final(self).awaited() is None,
            final(self).batches_left() == old(self).batches_left(),
            final(self).records_left() == old(self).records_left(),
            final(self).deferred_error() == old(self).deferred_error(),
            fetched is Err ==> r == Some(Err::<T, SwapVecError>(fetched->Err_0)) && final(self).staged()
                == old(self).staged() && final(self).memory_left() == old(self).memory_left(),
            fetched is Ok && fetched->Ok_0@.len() > 0 ==> r == Some(
                Ok::<T, SwapVecError>(fetched->Ok_0@[0]),
            ) && final(self).staged() == fetched->Ok_0@.drop_first() && final(self).memory_left()
                == old(self).memory_left(),
            fetched is Ok && fetched->Ok_0@.len() == 0 ==> final(self).staged() == Seq::<T>::empty()
                && yields_head(old(self).memory_left(), final(self).memory_left(), r) && !(r matches Some(
                Err(_),
            )),
            old(self).staged().len() == 0 && fetched is Ok && old(self).awaited() == Some(
                fetched->Ok_0@,
            ) ==> yields_head(old(self).remaining(), final(self).remaining(), r),
    {
        let ghost awaited = self.awaiting@.unwrap();
        self.awaiting = Ghost(None);
        match fetched {
            Err(e) => {
                return Some(Err(e));
            },
            Ok(batch) => {
                let ghost original = batch@;
                let mut batch = batch;
                let mut rev: Vec<T> = Vec::with_capacity(self.config.batch_size);
                loop
                    invariant_except_break
                        batch@ + rev@.reverse() == original,
                    ensures
                        rev@.reverse() == original,
                    decreases batch@.len(),
                {
                    let ghost before = batch@;
                    match batch.pop() {
                        Some(x) => {
                            let ghost old_rev = rev@;
                            rev.push(x);
                            assert(rev@.reverse() =~= seq![x] + old_rev.reverse());
                            assert(before =~= batch@.push(x));
                            assert(batch@ + rev@.reverse() =~= before + old_rev.reverse());
                        },
                        None => {
                            assert(rev@.reverse() =~= original);
                            break;
                        },
                    }
                }
                self.current_batch_rev = rev;
                let ghost installed = self.current_batch_rev@;
                match self.current_batch_rev.pop() {
                    Some(x) => {
                        proof {
                            assert(installed.reverse()[0] == installed.last());
                            assert(self.staged() =~= original.drop_first());
                            if old(self).staged().len() == 0 && original == awaited {
                                assert(old(self).remaining() =~= original + concat(
                                    old(self).batches_left(),
                                ) + old(self).memory_left());
                                assert(self.remaining() =~= original.drop_first() + concat(
                                    self.batches_left(),
                                ) + self.memory_left());
                                assert(old(self).remaining()[0] == x);
                                assert(self.remaining() =~= old(self).remaining().drop_first());
                            }
                        }
                        Some(Ok(x))
                    },
                    None => {
                        let r = self.next_in_memory();
                        proof {
                            assert(self.staged() =~= Seq::<T>::empty());
                            if old(self).staged().len() == 0 && original == awaited {
                                assert(self.config.batch_size == 0);
                                if self.tempfile is Some {
                                    self.tempfile.unwrap().lemma_position_bounded();
                                    let p = self.tempfile.unwrap().position() as int;
                                    assert forall|i: int|
                                        0 <= i < self.batches_left().len() implies (
                                    #[trigger] self.batches_left()[i]).len() == 0 by {
                                        assert(self.batches_left()[i] == self.batches@[p + i]);
                                    }
                                }
                                lemma_concat_of_empty_batches(self.batches_left());
                                assert(old(self).remaining() =~= old(self).memory_left());
                                assert(self.remaining() =~= self.memory_left());
                            }
                        }
                        r
                    },
                }
            },
        }
    }

    /// Starts over from the first element, once the caller has rewound the file
    /// (`rewind` says how that went; without a file it is not looked at). Where
    /// the file could not be rewound, its position is kept and the error is
    /// reported before the next batch.
    pub fn reset(&mut self, rewind: Result<(), SwapVecError>)
        requires
            old(self).wf(),
        ensures
            final(self).wf(),
            final(self).spec_config() == old(self).spec_config(),
            final(self).has_file() == old(self).has_file(),
            final(self).all_batches() == old(self).all_batches(),
            final(self).all_memory() == old(self).all_memory(),
            final(self).staged() == Seq::<T>::empty(),
            final(self).awaited() is None,
            final(self).memory_left() == old(self).all_memory(),
            old(self).has_file() && rewind is Ok ==> final(self).batches_left() == old(
                self,
            ).all_batches() && final(self).deferred_error() == old(self).deferred_error(),
            old(self).has_file() && rewind is Err ==> final(self).batches_left() == old(
                self,
            ).batches_left() && final(self).deferred_error() == Some(rewind->Err_0),
            !old(self).has_file() ==> final(self).deferred_error() == old(self).deferred_error(),
            !old(self).has_file() || rewind is Ok ==> final(self).remaining() == concat(
                old(self).all_batches(),
            ) + old(self).all_memory(),
            final(self).all_records() == old(self).all_records(),
            !old(self).has_file() || rewind is Ok ==> final(self).at_start(),
    {
        self.current_batch_rev.clear();
        self.last_elements_index = 0;
        self.awaiting = Ghost(None);
        match &mut self.tempfile {
            Some(reader) => match rewind {
                Ok(()) => reader.reset(),
                Err(e) => {
                    self.new_error = Some(e);
                },
            },
            None => {},
        }
        proof {
            assert(self.staged() =~= Seq::<T>::empty());
            assert(self.memory_left() =~= self.all_memory());
            if self.tempfile is Some && rewind is Ok {
                assert(self.batches_left() =~= self.batches@);
                assert(self.records_left() =~= self.all_records());
            }
            if !old(self).has_file() {
                assert(concat(old(self).all_batches()) =~= Seq::<T>::empty());
            }
            if !old(self).has_file() || rewind is Ok {
                assert(self.remaining() =~= concat(old(self).all_batches()) + old(
                    self,
                ).all_memory());
            }
        }
    }
}

/// Once the file exists, a push spills exactly when memory holds more than
/// `batch_size` elements, whatever `swap_after` is; a spill takes the oldest
/// `batch_size` elements, in order, and leaves the rest in memory.
pub proof fn lemma_spill_with_file<T>(
    mem: Seq<T>,
    before: SwapVec<T>,
    after: SwapVec<T>,
    work: PushWork<T>,
)
    requires
        push_work_post(mem, before, after, work),
        before.has_file(),
    ensures
        (work is Spill) <==> mem.len() > before.spec_config().batch_size,
        (work is Done) <==> mem.len() <= before.spec_config().batch_size,
        !(work is NeedFile),
        work matches PushWork::Spill(batch) ==> batch@.len() == before.spec_config().batch_size
            && batch@ + after.memory() == mem,
        work is Done ==> after.memory() == mem,
{
    if work is Spill {
        let n = before.spec_config().batch_size as int;
        assert(mem.take(n) + mem.skip(n) =~= mem);
    }
}

/// The larger of the two thresholds of `cfg`.
pub open spec fn spill_threshold(cfg: SwapVecConfig) -> nat {
    if cfg.batch_size >= cfg.swap_after {
        cfg.batch_size as nat
    } else {
        cfg.swap_after as nat
    }
}

/// Without a file, a vector holds everything in memory: nothing spilled,
/// nothing on its way to the file.
pub proof fn lemma_without_file_all_in_memory<T>(v: &SwapVec<T>)
    requires
        v.wf(),
        !v.has_file(),
    ensures
        v.spilled() == Seq::<Seq<T>>::empty(),
        v.in_flight() is None,
        v.held() == v.memory(),
        v.contents() == v.memory(),
        v.file_records() == Seq::<BatchInfo>::empty(),
{
    assert(v.spilled() =~= Seq::<Seq<T>>::empty());
    assert(concat(v.spilled()) =~= Seq::<T>::empty());
    assert(v.contents() =~= v.memory());
}

/// The file comes with the first push past both thresholds: without a file, a
/// push with `mem` in memory is complete exactly while `mem` holds at most
/// `max(batch_size, swap_after)` elements, and needs the file past that; no
/// push creates the file by itself, and a push keeps a file that exists
/// ([`SwapVec::attach_file`] creates it, [`SwapVec::record_batch`] keeps it).
pub proof fn lemma_file_comes_past_threshold<T>(
    mem: Seq<T>,
    before: SwapVec<T>,
    after: SwapVec<T>,
    work: PushWork<T>,
)
    requires
        push_work_post(mem, before, after, work),
    ensures
        after.has_file() == before.has_file(),
        !before.has_file() ==> ((work is Done) <==> mem.len() <= spill_threshold(
            before.spec_config(),
        )),
        !before.has_file() ==> ((work is NeedFile) <==> mem.len() > spill_threshold(
            before.spec_config(),
        )),
        !before.has_file() ==> !(work is Spill),
{
}

/// Each spilled batch holds exactly `batch_size` elements, and the file holds
/// one record per spilled batch.
pub proof fn lemma_spilled_batches_are_full<T>(v: &SwapVec<T>)
    requires
        v.wf(),
    ensures
        forall|i: int|
            0 <= i < v.spilled().len() ==> (#[trigger] v.spilled()[i]).len()
                == v.spec_config().batch_size,
        v.file_records().len() == v.spilled().len(),
        !v.has_file() ==> v.spilled().len() == 0,
{
}

} // verus!
