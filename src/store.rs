use vstd::prelude::*;
use crate::entry::{entries_view, BlobstoreSyncQueueEntry, EntryView, MultiplexId, Timestamp};
use crate::pattern::{like_match, matches_like};

verus! {

/// Errors surfaced by the queue.
#[derive(Clone, Copy, Debug, PartialEq, Eq, Structural)]
pub enum QueueError {
    /// The request is malformed (an entry to delete has no identity).
    Validation,
    /// The storage layer refused the operation.
    DurableLayer,
    /// The background writer is gone.
    AggregatorUnavailable,
}

/// The group an entry belongs to in the grouped scan: entries of one
/// operation share a group, and an entry with the sentinel key is a group
/// of its own.
#[derive(Clone, Copy, Debug, PartialEq, Eq, Structural)]
pub enum GroupTag {
    Operation(u128),
    Row(u64),
}

/// The identity of a stored entry (zero where unset).
pub open spec fn stored_id(e: EntryView) -> u64 {
    match e.id {
        Some(i) => i,
        None => 0,
    }
}

pub open spec fn group_of(e: EntryView) -> GroupTag {
    if e.operation_key == 0 {
        GroupTag::Row(stored_id(e))
    } else {
        GroupTag::Operation(e.operation_key)
    }
}

/// Every stored entry has an identity below `next_id`, and identities
/// strictly increase along the sequence (so they are unique).
pub open spec fn ids_ascending(rows: Seq<EntryView>, next_id: u64) -> bool {
    &&& forall|i: int| 0 <= i < rows.len() ==> (#[trigger] rows[i]).id is Some && stored_id(rows[i]) < next_id
    &&& forall|i: int, j: int| 0 <= i < j < rows.len() ==> stored_id(#[trigger] rows[i]) < stored_id(#[trigger] rows[j])
}

/// `entries` as stored after `rows`, the i-th receiving identity `first + i`.
pub open spec fn stored(entries: Seq<EntryView>, first: u64) -> Seq<EntryView> {
    Seq::new(entries.len(), |i: int| entries[i].with_id(Some((first + i) as u64)))
}

/// Whether an entry is due for the scan: in multiplex `m`, inserted no later
/// than `older_than`, and with a key matching `pattern` where one is given.
pub open spec fn is_due(e: EntryView, pattern: Option<Seq<char>>, m: i32, older_than: i64) -> bool {
    &&& e.multiplex_id == m
    &&& e.timestamp <= older_than
    &&& match pattern {
        Some(p) => like_match(p, e.key),
        None => true,
    }
}

/// The first `limit` distinct groups of due entries, in storage order.
pub open spec fn selected_groups(
    rows: Seq<EntryView>,
    pattern: Option<Seq<char>>,
    m: i32,
    older_than: i64,
    limit: nat,
) -> Seq<GroupTag>
    decreases rows.len(),
{
    if rows.len() == 0 {
        Seq::empty()
    } else {
        let prev = selected_groups(rows.drop_last(), pattern, m, older_than, limit);
        let e = rows.last();
        if is_due(e, pattern, m, older_than) && prev.len() < limit && !prev.contains(group_of(e)) {
            prev.push(group_of(e))
        } else {
            prev
        }
    }
}

/// The result of the grouped scan: every entry of multiplex `m` whose group
/// was selected, whatever its own timestamp, in storage order.
pub open spec fn scan(
    rows: Seq<EntryView>,
    pattern: Option<Seq<char>>,
    m: i32,
    older_than: i64,
    limit: nat,
) -> Seq<EntryView> {
    let sel = selected_groups(rows, pattern, m, older_than, limit);
    rows.filter(|e: EntryView| e.multiplex_id == m && sel.contains(group_of(e)))
}

/// Every entry recorded for `key`.
pub open spec fn history(rows: Seq<EntryView>, key: Seq<char>) -> Seq<EntryView> {
    rows.filter(|e: EntryView| e.key == key)
}

/// Whether some entry of `entries` has no identity.
pub open spec fn any_unset(entries: Seq<EntryView>) -> bool {
    exists|i: int| 0 <= i < entries.len() && (#[trigger] entries[i]).id is None
}

/// Whether `id` is the identity of some entry of `entries`.
pub open spec fn names_id(entries: Seq<EntryView>, id: Option<u64>) -> bool {
    exists|i: int| 0 <= i < entries.len() && (#[trigger] entries[i]).id == id
}

/// What remains after deleting the entries whose identities `entries` carry.
pub open spec fn remaining_after_del(rows: Seq<EntryView>, entries: Seq<EntryView>) -> Seq<EntryView> {
    rows.filter(|e: EntryView| !names_id(entries, e.id))
}

proof fn lemma_filter_step(rows: Seq<EntryView>, i: int, pred: spec_fn(EntryView) -> bool)
    requires
        0 <= i < rows.len(),
    ensures
        rows.take(i + 1).filter(pred) == if pred(rows[i]) {
            rows.take(i).filter(pred).push(rows[i])
        } else {
            rows.take(i).filter(pred)
        },
{
    reveal(Seq::filter);
    assert(rows.take(i + 1).drop_last() =~= rows.take(i));
    assert(rows.take(i + 1).last() == rows[i]);
}

/// An in-memory queue: the stored entries in insertion order, and the next
/// identity to hand out.
pub struct MemBlobstoreSyncQueue {
    rows: Vec<BlobstoreSyncQueueEntry>,
    next_id: u64,
}

impl View for MemBlobstoreSyncQueue {
    type V = Seq<EntryView>;

    closed spec fn view(&self) -> Seq<EntryView> {
        entries_view(self.rows@)
    }
}

fn group_tag(e: &BlobstoreSyncQueueEntry) -> (r: GroupTag)
    ensures
        r == group_of(e@),
{
    if e.operation_key.is_null() {
        match e.id {
            Some(i) => GroupTag::Row(i),
            None => GroupTag::Row(0),
        }
    } else {
        GroupTag::Operation(e.operation_key.0)
    }
}

fn tag_listed(tags: &Vec<GroupTag>, t: GroupTag) -> (r: bool)
    ensures
        r == tags@.contains(t),
{
    let mut i: usize = 0;
    while i < tags.len()
        invariant
            i <= tags@.len(),
            forall|k: int| 0 <= k < i ==> tags@[k] != t,
        decreases tags@.len() - i,
    {
        if tags[i] == t {
            return true;
        }
        i += 1;
    }
    false
}

fn due(
    e: &BlobstoreSyncQueueEntry,
    key_like: Option<&String>,
    multiplex_id: MultiplexId,
    older_than: Timestamp,
) -> (r: bool)
    ensures
        r == is_due(e@, opt_view(key_like), multiplex_id.0, older_than.0),
{
    if e.multiplex_id.0 != multiplex_id.0 || e.timestamp.0 > older_than.0 {
        return false;
    }
    match key_like {
        Some(p) => matches_like(p, &e.blobstore_key),
        None => true,
    }
}

pub open spec fn opt_view(p: Option<&String>) -> Option<Seq<char>> {
    match p {
        Some(s) => Some(s@),
        None => None,
    }
}

impl MemBlobstoreSyncQueue {
    /// The identity that the next stored entry receives.
    pub closed spec fn next_id_spec(&self) -> u64 {
        self.next_id
    }

    pub open spec fn wf(&self) -> bool {
        ids_ascending(self@, self.next_id_spec())
    }

    /// An empty queue.
    pub fn new() -> (r: Self)
        ensures
            r.wf(),
            r@ == Seq::<EntryView>::empty(),
            r.next_id_spec() == 1,
    {
        let r = MemBlobstoreSyncQueue { rows: Vec::new(), next_id: 1 };
        assert(r@ =~= Seq::<EntryView>::empty());
        r
    }

    /// Stores every entry, giving each a fresh identity. Fails, storing
    /// nothing, when the identities would run out.
    pub fn add_many(&mut self, entries: Vec<BlobstoreSyncQueueEntry>) -> (r: Result<(), QueueError>)
        requires
            old(self).wf(),
        ensures
            final(self).wf(),
            r is Ok <==> entries@.len() <= u64::MAX - old(self).next_id_spec(),
            r is Ok ==> final(self)@ == old(self)@ + stored(entries_view(entries@), old(self).next_id_spec())
                && final(self).next_id_spec() == old(self).next_id_spec() + entries@.len(),
            r matches Err(e) ==> e == QueueError::DurableLayer && *final(self) == *old(self),
    {
        if entries.len() as u64 > u64::MAX - self.next_id {
            return Err(QueueError::DurableLayer);
        }
        let ghost old_rows = self@;
        let ghost first = self.next_id;
        let ghost ev = entries_view(entries@);
        let mut i: usize = 0;
        while i < entries.len()
            invariant
                i <= entries@.len(),
                entries@.len() <= u64::MAX - first,
                ev == entries_view(entries@),
                self.next_id == first + i,
                self@ == old_rows + stored(ev.take(i as int), first),
                ids_ascending(self@, self.next_id),
            decreases entries@.len() - i,
        {
            let e = entries[i].copy_with_id(Some(self.next_id));
            let ghost before = self@;
            self.rows.push(e);
            self.next_id = self.next_id + 1;
            assert(self@ =~= before.push(e@));
            assert(stored(ev.take(i + 1), first) =~= stored(ev.take(i as int), first).push(e@));
            i += 1;
        }
        assert(ev.take(entries@.len() as int) =~= ev);
        Ok(())
    }

    /// Stores one entry (see `add_many`).
    pub fn add(&mut self, entry: BlobstoreSyncQueueEntry) -> (r: Result<(), QueueError>)
        requires
            old(self).wf(),
        ensures
            final(self).wf(),
            r is Ok <==> old(self).next_id_spec() < u64::MAX,
            r is Ok ==> final(self)@ == old(self)@.push(entry@.with_id(Some(old(self).next_id_spec())))
                && final(self).next_id_spec() == old(self).next_id_spec() + 1,
            r matches Err(e) ==> e == QueueError::DurableLayer && *final(self) == *old(self),
    {
        let ghost ev = entry@;
        let v = vec![entry];
        assert(entries_view(v@) =~= seq![ev]);
        let r = self.add_many(v);
        proof {
            if r is Ok {
                assert(stored(seq![ev], old(self).next_id_spec()) =~= seq![ev.with_id(Some(old(self).next_id_spec()))]);
            }
        }
        r
    }

    /// Every entry recorded for `key`, across all backends and multiplexes.
    pub fn get(&self, key: &String) -> (r: Vec<BlobstoreSyncQueueEntry>)
        ensures
            entries_view(r@) == history(self@, key@),
    {
        let ghost rows = self@;
        let ghost pred = |e: EntryView| e.key == key@;
        let mut out: Vec<BlobstoreSyncQueueEntry> = Vec::new();
        let mut i: usize = 0;
        while i < self.rows.len()
            invariant
                i <= rows.len(),
                rows == self@,
                rows.len() == self.rows@.len(),
                pred == (|e: EntryView| e.key == key@),
                entries_view(out@) == rows.take(i as int).filter(pred),
            decreases rows.len() - i,
        {
            let ghost before = out@;
            assert(rows[i as int] == self.rows@[i as int]@);
            proof {
                lemma_filter_step(rows, i as int, pred);
            }
            if self.rows[i].blobstore_key == *key {
                out.push(self.rows[i].copy_with_id(self.rows[i].id));
                assert(entries_view(out@) =~= entries_view(before).push(rows[i as int]));
            }
            i += 1;
        }
        assert(rows.take(rows.len() as int) =~= rows);
        out
    }

    /// The grouped scan: selects the first `limit` distinct groups among the
    /// entries of `multiplex_id` inserted no later than `older_than` (and
    /// whose key matches `key_like`, if given), then returns every entry of
    /// `multiplex_id` in those groups.
    pub fn iter(
        &self,
        key_like: Option<&String>,
        multiplex_id: MultiplexId,
        older_than: Timestamp,
        limit: usize,
    ) -> (r: Vec<BlobstoreSyncQueueEntry>)
        ensures
            entries_view(r@) == scan(self@, opt_view(key_like), multiplex_id.0, older_than.0, limit as nat),
    {
        let ghost rows = self@;
        let ghost pat = opt_view(key_like);
        let mut sel: Vec<GroupTag> = Vec::new();
        let mut i: usize = 0;
        while i < self.rows.len()
            invariant
                i <= rows.len(),
                rows == self@,
                rows.len() == self.rows@.len(),
                pat == opt_view(key_like),
                sel@ == selected_groups(rows.take(i as int), pat, multiplex_id.0, older_than.0, limit as nat),
            decreases rows.len() - i,
        {
            let tag = group_tag(&self.rows[i]);
            assert(rows.take(i + 1).drop_last() =~= rows.take(i as int));
            assert(rows.take(i + 1).last() == rows[i as int]);
            assert(rows[i as int] == self.rows@[i as int]@);
            if due(&self.rows[i], key_like, multiplex_id, older_than) && sel.len() < limit
                && !tag_listed(&sel, tag) {
                sel.push(tag);
            }
            i += 1;
        }
        assert(rows.take(rows.len() as int) =~= rows);
        let ghost pred = |e: EntryView| e.multiplex_id == multiplex_id.0 && sel@.contains(group_of(e));
        let mut out: Vec<BlobstoreSyncQueueEntry> = Vec::new();
        let mut j: usize = 0;
        while j < self.rows.len()
            invariant
                j <= rows.len(),
                rows == self@,
                rows.len() == self.rows@.len(),
                sel@ == selected_groups(rows, opt_view(key_like), multiplex_id.0, older_than.0, limit as nat),
                pred == (|e: EntryView| e.multiplex_id == multiplex_id.0 && sel@.contains(group_of(e))),
                entries_view(out@) == rows.take(j as int).filter(pred),
            decreases rows.len() - j,
        {
            let ghost before = out@;
            let e = &self.rows[j];
            assert(rows[j as int] == e@);
            if e.multiplex_id.0 == multiplex_id.0 && tag_listed(&sel, group_tag(e)) {
                out.push(e.copy_with_id(e.id));
                assert(entries_view(out@) =~= entries_view(before).push(rows[j as int]));
            }
            proof {
                lemma_filter_step(rows, j as int, pred);
            }
            j += 1;
        }
        assert(rows.take(rows.len() as int) =~= rows);
        out
    }

    /// Deletes the stored entries whose identities `entries` carry. Fails with
    /// `Validation`, deleting nothing, when one of them has no identity.
    /// Identities that are no longer stored are ignored.
    pub fn del(&mut self, entries: &[BlobstoreSyncQueueEntry]) -> (r: Result<(), QueueError>)
        requires
            old(self).wf(),
        ensures
            final(self).wf(),
            final(self).next_id_spec() == old(self).next_id_spec(),
            r is Err <==> any_unset(entries_view(entries@)),
            r matches Err(e) ==> e == QueueError::Validation && final(self)@ == old(self)@,
            r is Ok ==> final(self)@ == remaining_after_del(old(self)@, entries_view(entries@)),
    {
        let ghost ev = entries_view(entries@);
        let mut ids: Vec<u64> = Vec::new();
        let mut k: usize = 0;
        while k < entries.len()
            invariant
                k <= entries@.len(),
                ev == entries_view(entries@),
                *self == *old(self),
                self.wf(),
                ids@.len() == k,
                forall|x: int| 0 <= x < k ==> ev[x].id == Some(#[trigger] ids@[x]),
            decreases entries@.len() - k,
        {
            match entries[k].id {
                Some(id) => ids.push(id),
                None => {
                    assert(ev[k as int].id is None);
                    return Err(QueueError::Validation);
                },
            }
            k += 1;
        }
        assert forall|x: int| 0 <= x < ev.len() implies (#[trigger] ev[x]).id is Some by {
            assert(ev[x].id == Some(ids@[x]));
        }
        assert(!any_unset(ev));
        let ghost rows = self@;
        let ghost pred = |e: EntryView| !names_id(ev, e.id);
        let mut kept: Vec<BlobstoreSyncQueueEntry> = Vec::new();
        let mut i: usize = 0;
        while i < self.rows.len()
            invariant
                i <= rows.len(),
                rows == self@,
                rows.len() == self.rows@.len(),
                ids_ascending(rows, self.next_id),
                ev == entries_view(entries@),
                ids@.len() == ev.len(),
                forall|x: int| 0 <= x < ev.len() ==> ev[x].id == Some(#[trigger] ids@[x]),
                pred == (|e: EntryView| !names_id(ev, e.id)),
                entries_view(kept@) == rows.take(i as int).filter(pred),
                ids_ascending(entries_view(kept@), self.next_id),
                forall|a: int, b: int| 0 <= a < kept@.len() && i <= b < rows.len()
                    ==> stored_id(#[trigger] entries_view(kept@)[a]) < stored_id(#[trigger] rows[b]),
            decreases rows.len() - i,
        {
            let ghost before = kept@;
            assert(rows[i as int] == self.rows@[i as int]@);
            let id = match self.rows[i].id {
                Some(x) => x,
                None => 0,
            };
            assert(rows[i as int].id == Some(id));
            let mut found = false;
            let mut x: usize = 0;
            while x < ids.len()
                invariant
                    x <= ids@.len(),
                    found == exists|y: int| 0 <= y < x && ids@[y] == id,
                decreases ids@.len() - x,
            {
                if ids[x] == id {
                    found = true;
                }
                x += 1;
            }
            if found {
                proof {
                    let y = choose|y: int| 0 <= y < ids@.len() && ids@[y] == id;
                    assert(ev[y].id == rows[i as int].id);
                    assert(names_id(ev, rows[i as int].id));
                }
            } else {
                assert forall|y: int| 0 <= y < ev.len() implies (#[trigger] ev[y]).id != rows[i as int].id by {
                    assert(ev[y].id == Some(ids@[y]));
                }
                kept.push(self.rows[i].copy_with_id(self.rows[i].id));
                assert(entries_view(kept@) =~= entries_view(before).push(rows[i as int]));
            }
            proof {
                lemma_filter_step(rows, i as int, pred);
            }
            i += 1;
        }
        assert(rows.take(rows.len() as int) =~= rows);
        self.rows = kept;
        Ok(())
    }
}

} // verus!
