use blobstore_sync_queue::coalescer::{combine_outcomes, WriteCoalescer, WriteOutcome, WRITE_BUFFER_SIZE};
use blobstore_sync_queue::entry::{BlobstoreId, BlobstoreSyncQueueEntry, MultiplexId, Timestamp};
use blobstore_sync_queue::operation_key::{OperationKey, OperationKeyError};
use blobstore_sync_queue::pattern::matches_like;
use blobstore_sync_queue::store::{MemBlobstoreSyncQueue, QueueError};

fn entry(key: &str, backend: u64, multiplex: i32, op: OperationKey, t: i64) -> BlobstoreSyncQueueEntry {
    BlobstoreSyncQueueEntry::new(
        key.to_string(),
        BlobstoreId(backend),
        MultiplexId(multiplex),
        Timestamp(t),
        op,
    )
}

fn keys(entries: &[BlobstoreSyncQueueEntry]) -> Vec<String> {
    entries.iter().map(|e| e.blobstore_key.clone()).collect()
}

const OP1: OperationKey = OperationKey(0x1111);
const OP2: OperationKey = OperationKey(0x2222);

#[test]
fn iter_returns_whole_operation() {
    let mut q = MemBlobstoreSyncQueue::new();
    q.add(entry("a", 1, 1, OP1, 100)).unwrap();
    q.add(entry("b", 2, 1, OP1, 200)).unwrap();
    let r = q.iter(None, MultiplexId(1), Timestamp(150), 10);
    assert_eq!(keys(&r), vec!["a".to_string(), "b".to_string()]);
}

#[test]
fn get_after_add_has_identity() {
    let mut q = MemBlobstoreSyncQueue::new();
    q.add(entry("a", 1, 1, OP1, 100)).unwrap();
    q.add(entry("b", 2, 1, OP1, 200)).unwrap();
    let r = q.get(&"a".to_string());
    assert_eq!(r.len(), 1);
    assert!(r[0].id.is_some());
    let mut expected = entry("a", 1, 1, OP1, 100);
    expected.id = r[0].id;
    assert_eq!(r[0], expected);
}

#[test]
fn del_then_get_is_empty() {
    let mut q = MemBlobstoreSyncQueue::new();
    q.add(entry("a", 1, 1, OP1, 100)).unwrap();
    q.add(entry("b", 2, 1, OP1, 200)).unwrap();
    let a = q.get(&"a".to_string());
    q.del(&a).unwrap();
    assert!(q.get(&"a".to_string()).is_empty());
    assert_eq!(q.get(&"b".to_string()).len(), 1);
}

#[test]
fn add_many_assigns_unique_identities() {
    let mut q = MemBlobstoreSyncQueue::new();
    let batch = vec![
        entry("k", 1, 1, OP1, 10),
        entry("k", 2, 1, OP1, 10),
        entry("k", 3, 2, OP2, 11),
    ];
    q.add_many(batch.clone()).unwrap();
    let r = q.get(&"k".to_string());
    assert_eq!(r.len(), 3);
    for (got, sent) in r.iter().zip(batch.iter()) {
        let mut expected = sent.clone();
        expected.id = got.id;
        assert_eq!(*got, expected);
    }
    assert_eq!(r[0].id, Some(1));
    assert_eq!(r[1].id, Some(2));
    assert_eq!(r[2].id, Some(3));
}

#[test]
fn del_twice_is_no_op() {
    let mut q = MemBlobstoreSyncQueue::new();
    q.add(entry("a", 1, 1, OP1, 1)).unwrap();
    q.add(entry("b", 1, 1, OP2, 2)).unwrap();
    let a = q.get(&"a".to_string());
    assert_eq!(q.del(&a), Ok(()));
    assert_eq!(q.del(&a), Ok(()));
    assert_eq!(keys(&q.get(&"b".to_string())), vec!["b".to_string()]);
}

#[test]
fn del_without_identity_deletes_nothing() {
    let mut q = MemBlobstoreSyncQueue::new();
    q.add(entry("a", 1, 1, OP1, 1)).unwrap();
    let mut batch = q.get(&"a".to_string());
    batch.push(entry("b", 1, 1, OP2, 2));
    assert_eq!(q.del(&batch), Err(QueueError::Validation));
    assert_eq!(q.get(&"a".to_string()).len(), 1);
}

#[test]
fn grouping_ignores_sibling_timestamp() {
    let mut q = MemBlobstoreSyncQueue::new();
    q.add(entry("x", 1, 3, OP1, 1000)).unwrap();
    q.add(entry("y", 2, 3, OP2, 50)).unwrap();
    q.add(entry("z", 2, 3, OP1, 10)).unwrap();
    q.add(entry("w", 1, 4, OP1, 10)).unwrap();
    let r = q.iter(None, MultiplexId(3), Timestamp(20), 1);
    // OP1 is selected through "z"; "x" follows it, "w" is in another multiplex.
    assert_eq!(keys(&r), vec!["x".to_string(), "z".to_string()]);
}

#[test]
fn limit_counts_groups_not_rows() {
    let mut q = MemBlobstoreSyncQueue::new();
    q.add(entry("a1", 1, 1, OP1, 1)).unwrap();
    q.add(entry("a2", 2, 1, OP1, 2)).unwrap();
    q.add(entry("b1", 1, 1, OP2, 3)).unwrap();
    let r = q.iter(None, MultiplexId(1), Timestamp(100), 1);
    assert_eq!(keys(&r), vec!["a1".to_string(), "a2".to_string()]);
    let r = q.iter(None, MultiplexId(1), Timestamp(100), 2);
    assert_eq!(r.len(), 3);
    assert!(q.iter(None, MultiplexId(1), Timestamp(100), 0).is_empty());
}

#[test]
fn sentinel_entries_are_not_joined() {
    let mut q = MemBlobstoreSyncQueue::new();
    q.add(entry("old", 1, 1, OperationKey::null(), 10)).unwrap();
    q.add(entry("new", 2, 1, OperationKey::null(), 500)).unwrap();
    let r = q.iter(None, MultiplexId(1), Timestamp(100), 10);
    assert_eq!(keys(&r), vec!["old".to_string()]);
    let r = q.iter(None, MultiplexId(1), Timestamp(1000), 1);
    assert_eq!(keys(&r), vec!["old".to_string()]);
    let r = q.iter(None, MultiplexId(1), Timestamp(1000), 2);
    assert_eq!(r.len(), 2);
}

#[test]
fn iter_with_key_pattern() {
    let mut q = MemBlobstoreSyncQueue::new();
    q.add(entry("repo1.blob", 1, 1, OP1, 1)).unwrap();
    q.add(entry("repo2.blob", 1, 1, OP2, 1)).unwrap();
    q.add(entry("other", 2, 1, OP2, 900)).unwrap();
    let pat = "repo1%".to_string();
    let r = q.iter(Some(&pat), MultiplexId(1), Timestamp(5), 10);
    assert_eq!(keys(&r), vec!["repo1.blob".to_string()]);
    let pat = "repo_.blob".to_string();
    let r = q.iter(Some(&pat), MultiplexId(1), Timestamp(5), 10);
    assert_eq!(r.len(), 3);
}

#[test]
fn like_patterns() {
    let m = |p: &str, s: &str| matches_like(&p.to_string(), &s.to_string());
    assert!(m("", ""));
    assert!(!m("", "a"));
    assert!(m("%", ""));
    assert!(m("a%c", "abbbc"));
    assert!(!m("a%c", "abbb"));
    assert!(m("_b_", "abc"));
    assert!(!m("_b_", "ab"));
    assert!(m("%b%", "abc"));
    assert!(!m("abc", "abd"));
}

#[test]
fn generated_keys_are_not_null() {
    let a = OperationKey::gen();
    let b = OperationKey::gen();
    assert!(!a.is_null());
    assert!(!b.is_null());
    assert_ne!(a, b);
    assert!(OperationKey::null().is_null());
    assert!(!OP1.is_null());
}

#[test]
fn key_encoding_round_trip() {
    let k = OperationKey(0x0102030405060708090a0b0c0d0e0f10);
    let b = k.to_bytes();
    assert_eq!(b, vec![1u8, 2, 3, 4, 5, 6, 7, 8, 9, 10, 11, 12, 13, 14, 15, 16]);
    assert_eq!(OperationKey::from_bytes(&b), Ok(k));
    let g = OperationKey::gen();
    assert_eq!(OperationKey::from_bytes(&g.to_bytes()), Ok(g));
    assert_eq!(OperationKey::null().to_bytes(), vec![0u8; 16]);
}

#[test]
fn key_decoding_rejects_wrong_length() {
    assert_eq!(OperationKey::from_bytes(&[1u8, 2, 3]), Err(OperationKeyError::WrongLength));
    assert_eq!(OperationKey::from_bytes(&[0u8; 17]), Err(OperationKeyError::WrongLength));
}

#[test]
fn concurrent_batches_all_resolve_once() {
    let mut q = MemBlobstoreSyncQueue::new();
    let mut w = WriteCoalescer::new();
    let mut tickets = Vec::new();
    for n in 0..3 {
        let batch: Vec<_> = (0..4)
            .map(|k| entry(&format!("key{}-{}", n, k), 1, 1, OP1, 7))
            .collect();
        tickets.extend(w.submit(batch).unwrap());
    }
    let outcomes = w.drain_all(&mut q);
    let got: Vec<u64> = outcomes.iter().map(|o| o.ticket).collect();
    assert_eq!(got, tickets);
    assert!(outcomes.iter().all(|o| o.result.is_ok()));
    assert_eq!(q.iter(None, MultiplexId(1), Timestamp(7), 10).len(), 12);
    assert_eq!(combine_outcomes(&outcomes), Ok(()));
}

#[test]
fn flush_writes_bounded_chunks() {
    let mut q = MemBlobstoreSyncQueue::new();
    let mut w = WriteCoalescer::new();
    let batch: Vec<_> = (0..WRITE_BUFFER_SIZE + 1).map(|_| entry("same", 1, 1, OP2, 1)).collect();
    w.submit(batch).unwrap();
    let first = w.flush_chunk(&mut q);
    assert_eq!(first.len(), WRITE_BUFFER_SIZE);
    assert_eq!(q.get(&"same".to_string()).len(), WRITE_BUFFER_SIZE);
    let second = w.flush_chunk(&mut q);
    assert_eq!(second.len(), 1);
    assert_eq!(second[0].ticket, WRITE_BUFFER_SIZE as u64);
    assert!(w.flush_chunk(&mut q).is_empty());
    assert_eq!(q.get(&"same".to_string()).len(), WRITE_BUFFER_SIZE + 1);
}

#[test]
fn combined_outcome_reports_first_failure() {
    let ok = WriteOutcome { ticket: 0, result: Ok(()) };
    let bad = WriteOutcome { ticket: 1, result: Err(QueueError::DurableLayer) };
    let gone = WriteOutcome { ticket: 2, result: Err(QueueError::AggregatorUnavailable) };
    assert_eq!(combine_outcomes(&[]), Ok(()));
    assert_eq!(combine_outcomes(&[ok, ok]), Ok(()));
    assert_eq!(combine_outcomes(&[ok, bad, gone]), Err(QueueError::DurableLayer));
    assert_eq!(combine_outcomes(&[gone, bad]), Err(QueueError::AggregatorUnavailable));
}
