use vstd::prelude::*;
use crate::operation_key::OperationKey;

verus! {

/// One physical backend within a multiplex.
#[derive(Clone, Copy, Debug, PartialEq, Eq, Hash, Structural)]
pub struct BlobstoreId(pub u64);

/// A logical multiplex: a blob store backed by several backends.
#[derive(Clone, Copy, Debug, PartialEq, Eq, Hash, Structural)]
pub struct MultiplexId(pub i32);

/// A point in time, in nanoseconds since the Unix epoch.
#[derive(Clone, Copy, Debug, PartialEq, Eq, Hash, Structural)]
pub struct Timestamp(pub i64);

/// One record of the queue: `blobstore_key` still has to reach backend
/// `blobstore_id` of multiplex `multiplex_id`. `id` is set once the entry
/// has been stored.
#[derive(Clone, Debug, PartialEq, Eq, Hash)]
pub struct BlobstoreSyncQueueEntry {
    pub blobstore_key: String,
    pub blobstore_id: BlobstoreId,
    pub multiplex_id: MultiplexId,
    pub timestamp: Timestamp,
    pub id: Option<u64>,
    pub operation_key: OperationKey,
}

/// The mathematical value of an entry.
pub struct EntryView {
    pub key: Seq<char>,
    pub blobstore_id: u64,
    pub multiplex_id: i32,
    pub timestamp: i64,
    pub id: Option<u64>,
    pub operation_key: u128,
}

impl EntryView {
    /// The same entry with another identity.
    pub open spec fn with_id(self, id: Option<u64>) -> EntryView {
        EntryView { id, ..self }
    }
}

impl View for BlobstoreSyncQueueEntry {
    type V = EntryView;

    open spec fn view(&self) -> EntryView {
        EntryView {
            key: self.blobstore_key@,
            blobstore_id: self.blobstore_id.0,
            multiplex_id: self.multiplex_id.0,
            timestamp: self.timestamp.0,
            id: self.id,
            operation_key: self.operation_key.0,
        }
    }
}

/// The values of a sequence of entries.
pub open spec fn entries_view(s: Seq<BlobstoreSyncQueueEntry>) -> Seq<EntryView> {
    s.map_values(|e: BlobstoreSyncQueueEntry| e@)
}

impl BlobstoreSyncQueueEntry {
    /// A new entry, not stored yet.
    pub fn new(
        blobstore_key: String,
        blobstore_id: BlobstoreId,
        multiplex_id: MultiplexId,
        timestamp: Timestamp,
        operation_key: OperationKey,
    ) -> (r: Self)
        ensures
            r@ == (EntryView {
                key: blobstore_key@,
                blobstore_id: blobstore_id.0,
                multiplex_id: multiplex_id.0,
                timestamp: timestamp.0,
                id: None,
                operation_key: operation_key.0,
            }),
    {
        BlobstoreSyncQueueEntry {
            blobstore_key,
            blobstore_id,
            multiplex_id,
            timestamp,
            operation_key,
            id: None,
        }
    }

    /// A copy of this entry carrying the identity `id`.
    pub fn copy_with_id(&self, id: Option<u64>) -> (r: Self)
        ensures
            r@ == self@.with_id(id),
    {
        BlobstoreSyncQueueEntry {
            blobstore_key: self.blobstore_key.clone(),
            blobstore_id: self.blobstore_id,
            multiplex_id: self.multiplex_id,
            timestamp: self.timestamp,
            operation_key: self.operation_key,
            id,
        }
    }
}

} // verus!
