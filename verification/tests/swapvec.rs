use std::collections::VecDeque;

use retia_core::batch::{hash_bytes, BatchWriter};
use retia_core::deque_index::VecDequeIndex;
use retia_core::swapvec::{NextStep, PushWork, SwapVec, SwapVecConfig, SwapVecError};
use serde::de::DeserializeOwned;
use serde::Serialize;

/// A `SwapVec` whose spill file is a byte buffer in memory.
struct InMemorySpill<T> {
    core: SwapVec<T>,
    file: Option<Vec<u8>>,
}

fn with_config<T>(config: SwapVecConfig) -> InMemorySpill<T> {
    InMemorySpill { core: SwapVec::with_config(config), file: None }
}

fn push<T: Serialize>(v: &mut InMemorySpill<T>, element: T) -> Result<(), SwapVecError> {
    let mut work = v.core.push(element);
    loop {
        match work {
            PushWork::Done => return Ok(()),
            PushWork::NeedFile => {
                v.file = Some(Vec::new());
                v.core.attach_file();
                work = v.core.after_push_work();
            }
            PushWork::Spill(batch) => {
                let bytes = rmp_serde::to_vec(&batch)
                    .map_err(|e| SwapVecError::SerializationFailed(e.to_string()))?;
                v.file.as_mut().unwrap().extend_from_slice(&bytes);
                v.core.record_batch(&bytes);
                return Ok(());
            }
        }
    }
}

fn consume<T: Serialize>(
    v: &mut InMemorySpill<T>,
    it: impl Iterator<Item = T>,
) -> Result<(), SwapVecError> {
    for element in it {
        push(v, element)?;
    }
    Ok(())
}

fn collect<T: Clone + DeserializeOwned>(v: InMemorySpill<T>) -> Vec<Result<T, SwapVecError>> {
    let file = v.file.unwrap_or_default();
    let mut it = v.core.into_iter(Ok(()));
    let mut pos = 0;
    let mut out = Vec::new();
    loop {
        let answer = match it.next() {
            NextStep::Yield(r) => r,
            NextStep::NeedBatch(n) => {
                let bytes = &file[pos..pos + n];
                pos += n;
                let fetched: Result<Vec<T>, SwapVecError> = rmp_serde::from_slice(bytes)
                    .map_err(|e| SwapVecError::SerializationFailed(e.to_string()));
                it.next_with_batch(fetched)
            }
        };
        match answer {
            Some(r) => out.push(r),
            None => return out,
        }
    }
}

#[test]
fn push_and_iterate_in_memory() {
    let mut v: InMemorySpill<u32> = InMemorySpill { core: SwapVec::default(), file: None };
    consume(&mut v, 0..1024).unwrap();
    let out: Vec<u32> = collect(v).into_iter().map(|r| r.unwrap()).collect();
    assert_eq!(out, (0..1024).collect::<Vec<_>>());
}

#[test]
fn spills_to_disk_and_reads_back() {
    let config = SwapVecConfig { swap_after: 4, batch_size: 4 };
    let mut v: InMemorySpill<u64> = with_config(config);
    consume(&mut v, 0..32u64).unwrap();
    assert!(v.core.written_to_file());
    let out: Vec<u64> = collect(v).into_iter().map(|r| r.unwrap()).collect();
    assert_eq!(out, (0..32u64).collect::<Vec<_>>());
}

#[test]
fn default_config_values() {
    let c = SwapVecConfig::default();
    assert_eq!(c.swap_after, 32 * 1024 * 1024);
    assert_eq!(c.batch_size, 32 * 1024);
}

#[test]
fn spill_starts_past_swap_after_and_drains_one_batch_per_push() {
    let config = SwapVecConfig { swap_after: 5, batch_size: 2 };
    let mut v: InMemorySpill<u64> = with_config(config);
    consume(&mut v, 0..5u64).unwrap();
    assert!(!v.core.written_to_file());
    assert_eq!(v.core.batches_written(), 0);
    assert_eq!(v.core.file_size(), None);
    push(&mut v, 5).unwrap();
    assert!(v.core.written_to_file());
    assert_eq!(v.core.batches_written(), 1);
    assert_eq!(v.core.elements_in_memory(), 4);
    push(&mut v, 6).unwrap();
    assert_eq!(v.core.batches_written(), 2);
    assert_eq!(v.core.elements_in_memory(), 3);
    push(&mut v, 7).unwrap();
    assert_eq!(v.core.batches_written(), 3);
    assert_eq!(v.core.elements_in_memory(), 2);
    let file_len = v.file.as_ref().unwrap().len();
    assert_eq!(v.core.file_size(), Some(file_len));
    assert_eq!(
        v.core.describe(),
        "SwapVec {elements_in_ram: 2, elements_in_file: 6}"
    );
    let out: Vec<u64> = collect(v).into_iter().map(|r| r.unwrap()).collect();
    assert_eq!(out, (0..8u64).collect::<Vec<_>>());
}

#[test]
fn push_steps_without_a_file() {
    let mut sv: SwapVec<u8> = SwapVec::with_config(SwapVecConfig { swap_after: 1, batch_size: 1 });
    assert!(matches!(sv.push(1), PushWork::Done));
    assert!(matches!(sv.push(2), PushWork::NeedFile));
    // The file could not be created: the element stays in memory.
    assert_eq!(sv.elements_in_memory(), 2);
    assert!(!sv.awaiting_write());
    sv.attach_file();
    match sv.after_push_work() {
        PushWork::Spill(batch) => assert_eq!(batch, vec![1]),
        _ => panic!("a spill is due"),
    }
    assert!(sv.awaiting_write());
    sv.record_batch(&[7, 7, 7]);
    assert!(!sv.awaiting_write());
    assert_eq!(sv.file_size(), Some(3));
    assert_eq!(sv.elements_in_memory(), 1);
}

#[test]
fn batch_size_zero_spills_empty_batches() {
    let config = SwapVecConfig { swap_after: 0, batch_size: 0 };
    let mut v: InMemorySpill<u8> = with_config(config);
    consume(&mut v, [3u8, 1, 2].into_iter()).unwrap();
    assert_eq!(v.core.batches_written(), 3);
    assert_eq!(v.core.elements_in_memory(), 3);
    let out: Vec<u8> = collect(v).into_iter().map(|r| r.unwrap()).collect();
    assert_eq!(out, vec![3, 1, 2]);
}

#[test]
fn unreopened_file_leaves_out_its_batches() {
    let config = SwapVecConfig { swap_after: 2, batch_size: 2 };
    let mut v: InMemorySpill<u8> = with_config(config);
    consume(&mut v, 0..4u8).unwrap();
    assert_eq!(v.core.batches_written(), 1);
    let mut it = v.core.into_iter(Err(SwapVecError::OutOfDisk));
    assert!(!it.reads_file());
    let mut out = vec![];
    loop {
        match it.next() {
            NextStep::Yield(Some(r)) => out.push(r.unwrap()),
            NextStep::Yield(None) => break,
            NextStep::NeedBatch(_) => panic!("no file is read"),
        }
    }
    assert_eq!(out, vec![2, 3]);
}

#[test]
fn failed_batch_read_is_reported_and_skipped() {
    let config = SwapVecConfig { swap_after: 2, batch_size: 2 };
    let mut v: InMemorySpill<u8> = with_config(config);
    consume(&mut v, 0..6u8).unwrap();
    assert_eq!(v.core.batches_written(), 2);
    let file = v.file.unwrap();
    let mut it = v.core.into_iter(Ok(()));
    let n = match it.next() {
        NextStep::NeedBatch(n) => n,
        _ => panic!("the first batch is read first"),
    };
    let r = it.next_with_batch(Err(SwapVecError::SerializationFailed("bad".to_string())));
    assert!(matches!(r, Some(Err(SwapVecError::SerializationFailed(_)))));
    let m = match it.next() {
        NextStep::NeedBatch(m) => m,
        _ => panic!("the second batch is read next"),
    };
    let second: Vec<u8> = rmp_serde::from_slice(&file[n..n + m]).unwrap();
    assert_eq!(it.next_with_batch(Ok(second)).unwrap().unwrap(), 2);
    assert!(matches!(it.next(), NextStep::Yield(Some(Ok(3)))));
    assert!(matches!(it.next(), NextStep::Yield(Some(Ok(4)))));
    assert!(matches!(it.next(), NextStep::Yield(Some(Ok(5)))));
    assert!(matches!(it.next(), NextStep::Yield(None)));
    assert!(matches!(it.next(), NextStep::Yield(None)));
}

#[test]
fn reset_starts_over_and_reports_failed_rewind() {
    let config = SwapVecConfig { swap_after: 1, batch_size: 1 };
    let mut v: InMemorySpill<u8> = with_config(config);
    consume(&mut v, 0..3u8).unwrap();
    assert_eq!(v.core.batches_written(), 2);
    let file = v.file.unwrap();
    let mut it = v.core.into_iter(Ok(()));
    let n = match it.next() {
        NextStep::NeedBatch(n) => n,
        _ => panic!("the first batch is read first"),
    };
    let first: Vec<u8> = rmp_serde::from_slice(&file[..n]).unwrap();
    assert_eq!(it.next_with_batch(Ok(first.clone())).unwrap().unwrap(), 0);
    it.reset(Ok(()));
    assert!(matches!(it.next(), NextStep::NeedBatch(k) if k == n));
    assert_eq!(it.next_with_batch(Ok(first)).unwrap().unwrap(), 0);
    it.reset(Err(SwapVecError::MissingPermissions));
    assert!(matches!(
        it.next(),
        NextStep::Yield(Some(Err(SwapVecError::MissingPermissions)))
    ));
    assert!(matches!(it.next(), NextStep::NeedBatch(_)));
}

#[test]
fn io_error_kinds() {
    assert!(matches!(
        SwapVecError::from_io_kind(std::io::ErrorKind::PermissionDenied),
        SwapVecError::MissingPermissions
    ));
    assert!(matches!(
        SwapVecError::from_io_kind(std::io::ErrorKind::NotFound),
        SwapVecError::Other(std::io::ErrorKind::NotFound)
    ));
    assert!(matches!(
        SwapVecError::from_io_kind_parts(false, std::io::ErrorKind::UnexpectedEof),
        SwapVecError::Other(std::io::ErrorKind::UnexpectedEof)
    ));
}

#[test]
fn batch_writer_and_reader_bookkeeping() {
    let mut w = BatchWriter::new();
    assert_eq!(w.batch_count(), 0);
    assert_eq!(w.bytes_written(), 0);
    w.write_batch(&[1, 2, 3]);
    w.write_batch(&[]);
    w.write_batch(&[9; 10]);
    assert_eq!(w.batch_count(), 3);
    assert_eq!(w.bytes_written(), 13);
    assert_eq!(w.checked_bytes_written(), Some(13));
    let mut r = w.into_reader();
    assert_eq!(r.read_batch(), Some(3));
    assert_eq!(r.read_batch(), Some(0));
    assert_eq!(r.read_batch(), Some(10));
    assert_eq!(r.read_batch(), None);
    assert_eq!(r.read_batch(), None);
    r.reset();
    assert_eq!(r.read_batch(), Some(3));
}

#[test]
fn hash_of_equal_bytes_is_equal() {
    assert_eq!(hash_bytes(b"retia"), hash_bytes(b"retia"));
    assert_ne!(hash_bytes(b"retia"), hash_bytes(b"retib"));
}

#[test]
fn deque_index_reads_across_both_halves() {
    let mut d: VecDeque<u32> = VecDeque::with_capacity(4);
    d.push_back(3);
    d.push_back(4);
    d.push_front(2);
    d.push_front(1);
    d.push_back(5);
    let idx = VecDequeIndex::from_deque(d);
    assert_eq!(idx.len(), 5);
    let got: Vec<Option<u32>> = (0..7).map(|i| idx.get(i)).collect();
    assert_eq!(
        got,
        vec![Some(1), Some(2), Some(3), Some(4), Some(5), None, None]
    );
}

#[test]
fn no_file_until_past_both_thresholds() {
    let mut v: InMemorySpill<u32> = InMemorySpill { core: SwapVec::default(), file: None };
    consume(&mut v, 0..1024).unwrap();
    assert!(!v.core.written_to_file());

    let config = SwapVecConfig { swap_after: 3, batch_size: 5 };
    let mut v: InMemorySpill<u32> = with_config(config);
    consume(&mut v, 0..5).unwrap();
    assert!(!v.core.written_to_file());
    push(&mut v, 5).unwrap();
    assert!(v.core.written_to_file());
    assert_eq!(v.core.batches_written(), 1);
    push(&mut v, 6).unwrap();
    assert!(v.core.written_to_file());
}

#[test]
fn iteration_ends_for_good() {
    let config = SwapVecConfig { swap_after: 2, batch_size: 2 };
    let mut v: InMemorySpill<u8> = with_config(config);
    consume(&mut v, 0..5u8).unwrap();
    let file = v.file.unwrap();
    let mut it = v.core.into_iter(Ok(()));
    let mut pos = 0;
    let mut out = vec![];
    let mut ends = 0;
    for _ in 0..12 {
        let answer = match it.next() {
            NextStep::Yield(r) => r,
            NextStep::NeedBatch(n) => {
                let batch: Vec<u8> = rmp_serde::from_slice(&file[pos..pos + n]).unwrap();
                pos += n;
                it.next_with_batch(Ok(batch))
            }
        };
        match answer {
            Some(r) => {
                assert_eq!(ends, 0);
                out.push(r.unwrap());
            }
            None => ends += 1,
        }
    }
    assert_eq!(out, vec![0, 1, 2, 3, 4]);
    assert_eq!(ends, 7);
    assert_eq!(pos, file.len());
}
