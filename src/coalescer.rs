use vstd::prelude::*;
use crate::entry::{entries_view, BlobstoreSyncQueueEntry, EntryView};
use crate::store::{stored, MemBlobstoreSyncQueue, QueueError};

verus! {

/// The most submissions written by one storage operation.
pub const WRITE_BUFFER_SIZE: usize = 5000;

/// A submitted entry waiting for the writer, with the ticket under which its
/// outcome is reported.
pub struct PendingWrite {
    pub ticket: u64,
    pub entry: BlobstoreSyncQueueEntry,
}

/// The outcome reported for one ticket.
#[derive(Clone, Copy, Debug, PartialEq, Eq)]
pub struct WriteOutcome {
    pub ticket: u64,
    pub result: Result<(), QueueError>,
}

pub open spec fn tickets_of(p: Seq<PendingWrite>) -> Seq<u64> {
    p.map_values(|w: PendingWrite| w.ticket)
}

pub open spec fn pending_entries(p: Seq<PendingWrite>) -> Seq<EntryView> {
    p.map_values(|w: PendingWrite| w.entry@)
}

pub open spec fn outcome_tickets(o: Seq<WriteOutcome>) -> Seq<u64> {
    o.map_values(|w: WriteOutcome| w.ticket)
}

/// Whether every outcome in `o` is a success.
pub open spec fn all_ok(o: Seq<WriteOutcome>) -> bool {
    forall|i: int| 0 <= i < o.len() ==> (#[trigger] o[i]).result is Ok
}

/// What a caller learns from the outcomes of its own submissions: success
/// when all succeeded, else the first failure.
pub open spec fn combined(o: Seq<WriteOutcome>) -> Result<(), QueueError>
    decreases o.len(),
{
    if o.len() == 0 {
        Ok(())
    } else if o[0].result is Err {
        o[0].result
    } else {
        combined(o.drop_first())
    }
}

/// The single writer's queue: entries submitted by any number of callers,
/// written to the store in chunks of at most `WRITE_BUFFER_SIZE`, every
/// submission receiving exactly one outcome.
pub struct WriteCoalescer {
    pending: Vec<PendingWrite>,
    next_ticket: u64,
}

impl WriteCoalescer {
    /// The submissions not written yet, oldest first.
    pub closed spec fn pending_spec(&self) -> Seq<PendingWrite> {
        self.pending@
    }

    /// The ticket that the next submission receives.
    pub closed spec fn next_ticket_spec(&self) -> u64 {
        self.next_ticket
    }

    /// Every pending ticket is below the next one, and tickets ascend.
    pub open spec fn wf(&self) -> bool {
        let p = self.pending_spec();
        &&& forall|i: int| 0 <= i < p.len() ==> (#[trigger] p[i]).ticket < self.next_ticket_spec()
        &&& forall|i: int, j: int| 0 <= i < j < p.len() ==> (#[trigger] p[i]).ticket < (#[trigger] p[j]).ticket
    }

    pub fn new() -> (r: Self)
        ensures
            r.wf(),
            r.pending_spec().len() == 0,
            r.next_ticket_spec() == 0,
    {
        WriteCoalescer { pending: Vec::new(), next_ticket: 0 }
    }

    /// Queues `entries`, returning the ticket of each. Fails, queueing
    /// nothing, when the tickets would run out.
    pub fn submit(&mut self, entries: Vec<BlobstoreSyncQueueEntry>) -> (r: Result<Vec<u64>, QueueError>)
        requires
            old(self).wf(),
        ensures
            final(self).wf(),
            r is Ok <==> entries@.len() <= u64::MAX - old(self).next_ticket_spec(),
            r matches Ok(t) ==> {
                &&& t@ == Seq::new(entries@.len(), |i: int| (old(self).next_ticket_spec() + i) as u64)
                &&& tickets_of(final(self).pending_spec()) == tickets_of(old(self).pending_spec()) + t@
                &&& pending_entries(final(self).pending_spec())
                    == pending_entries(old(self).pending_spec()) + entries_view(entries@)
                &&& final(self).next_ticket_spec() == old(self).next_ticket_spec() + entries@.len()
            },
            r matches Err(e) ==> e == QueueError::AggregatorUnavailable && *final(self) == *old(self),
    {
        if entries.len() as u64 > u64::MAX - self.next_ticket {
            return Err(QueueError::AggregatorUnavailable);
        }
        let ghost first = self.next_ticket;
        let ghost old_p = self.pending@;
        let ghost ev = entries_view(entries@);
        let mut tickets: Vec<u64> = Vec::new();
        let mut i: usize = 0;
        while i < entries.len()
            invariant
                i <= entries@.len(),
                entries@.len() <= u64::MAX - first,
                ev == entries_view(entries@),
                self.next_ticket == first + i,
                tickets@ == Seq::new(i as nat, |k: int| (first + k) as u64),
                tickets_of(self.pending@) == tickets_of(old_p) + tickets@,
                pending_entries(self.pending@) == pending_entries(old_p) + ev.take(i as int),
                self.wf(),
            decreases entries@.len() - i,
        {
            let w = PendingWrite { ticket: self.next_ticket, entry: entries[i].copy_with_id(entries[i].id) };
            let ghost before = self.pending@;
            self.pending.push(w);
            tickets.push(self.next_ticket);
            self.next_ticket = self.next_ticket + 1;
            assert(tickets_of(self.pending@) =~= tickets_of(before).push(w.ticket));
            assert(pending_entries(self.pending@) =~= pending_entries(before).push(w.entry@));
            assert(ev.take(i + 1) =~= ev.take(i as int).push(w.entry@));
            assert(tickets@ =~= Seq::new((i + 1) as nat, |k: int| (first + k) as u64));
            i += 1;
        }
        assert(ev.take(entries@.len() as int) =~= ev);
        Ok(tickets)
    }

    /// Writes the oldest pending submissions, at most `WRITE_BUFFER_SIZE` of
    /// them, with one storage operation, and reports that operation's result
    /// for each of their tickets.
    pub fn flush_chunk(&mut self, store: &mut MemBlobstoreSyncQueue) -> (r: Vec<WriteOutcome>)
        requires
            old(self).wf(),
            old(store).wf(),
        ensures
            final(self).wf(),
            final(store).wf(),
            final(self).next_ticket_spec() == old(self).next_ticket_spec(),
            ({
                let p = old(self).pending_spec();
                let n = if p.len() < WRITE_BUFFER_SIZE { p.len() } else { WRITE_BUFFER_SIZE as nat };
                let chunk = pending_entries(p.take(n as int));
                &&& final(self).pending_spec() == p.skip(n as int)
                &&& outcome_tickets(r@) == tickets_of(p.take(n as int))
                &&& (forall|i: int| 0 <= i < r@.len() ==> (#[trigger] r@[i]).result == r@[0].result)
                &&& (n > 0 ==> (r@[0].result is Ok <==> n <= u64::MAX - old(store).next_id_spec()))
                &&& (all_ok(r@) ==> final(store)@ == old(store)@ + stored(chunk, old(store).next_id_spec())
                    && final(store).next_id_spec() == old(store).next_id_spec() + n)
                &&& (!all_ok(r@) ==> *final(store) == *old(store))
                &&& (forall|i: int| 0 <= i < r@.len() && (#[trigger] r@[i]).result is Err
                    ==> r@[i].result == Err::<(), QueueError>(QueueError::DurableLayer))
            }),
    {
        let ghost p = self.pending@;
        let n: usize = if self.pending.len() < WRITE_BUFFER_SIZE { self.pending.len() } else { WRITE_BUFFER_SIZE };
        let mut chunk = self.pending.split_off(n);
        std::mem::swap(&mut self.pending, &mut chunk);
        assert(chunk@ =~= p.take(n as int));
        assert(self.pending@ =~= p.skip(n as int));
        let mut entries: Vec<BlobstoreSyncQueueEntry> = Vec::new();
        let mut i: usize = 0;
        while i < chunk.len()
            invariant
                i <= chunk@.len(),
                entries_view(entries@) == pending_entries(chunk@).take(i as int),
            decreases chunk@.len() - i,
        {
            let ghost before = entries@;
            entries.push(chunk[i].entry.copy_with_id(chunk[i].entry.id));
            assert(entries_view(entries@) =~= entries_view(before).push(chunk@[i as int].entry@));
            assert(pending_entries(chunk@).take(i + 1) =~= pending_entries(chunk@).take(i as int).push(chunk@[i as int].entry@));
            i += 1;
        }
        assert(pending_entries(chunk@).take(chunk@.len() as int) =~= pending_entries(chunk@));
        let result = store.add_many(entries);
        let mut out: Vec<WriteOutcome> = Vec::new();
        let mut j: usize = 0;
        while j < chunk.len()
            invariant
                j <= chunk@.len(),
                outcome_tickets(out@) == tickets_of(chunk@).take(j as int),
                forall|k: int| 0 <= k < out@.len() ==> (#[trigger] out@[k]).result == result,
            decreases chunk@.len() - j,
        {
            let ghost before = out@;
            out.push(WriteOutcome { ticket: chunk[j].ticket, result });
            assert(outcome_tickets(out@) =~= outcome_tickets(before).push(chunk@[j as int].ticket));
            assert(tickets_of(chunk@).take(j + 1) =~= tickets_of(chunk@).take(j as int).push(chunk@[j as int].ticket));
            j += 1;
        }
        assert(tickets_of(chunk@).take(chunk@.len() as int) =~= tickets_of(chunk@));
        proof {
            let t = tickets_of(p);
            assert(tickets_of(self.pending@) =~= t.skip(n as int));
            let q = self.pending@;
            assert forall|a: int| 0 <= a < q.len() implies (#[trigger] q[a]).ticket < self.next_ticket by {
                assert(q[a] == p[a + n]);
            }
            assert forall|a: int, b: int| 0 <= a < b < q.len() implies (#[trigger] q[a]).ticket < (#[trigger] q[b]).ticket by {
                assert(q[a] == p[a + n]);
                assert(q[b] == p[b + n]);
            }
            if n == 0 {
                assert(chunk@.len() == 0);
                assert(entries_view(entries@) =~= Seq::<EntryView>::empty());
                assert(stored(Seq::<EntryView>::empty(), old(store).next_id_spec()) =~= Seq::<EntryView>::empty());
                assert(final(store)@ =~= old(store)@);
            } else {
                assert(out@[0].result == result);
            }
        }
        out
    }

    /// Writes every pending submission, chunk by chunk, and reports one
    /// outcome per ticket, in submission order. Every outcome is a success
    /// exactly when the store has identities left for all pending entries, and
    /// then the store has gained exactly those entries. Whatever happens, the
    /// entries stored before stay, at the front.
    pub fn drain_all(&mut self, store: &mut MemBlobstoreSyncQueue) -> (r: Vec<WriteOutcome>)
        requires
            old(self).wf(),
            old(store).wf(),
        ensures
            final(self).wf(),
            final(store).wf(),
            final(self).pending_spec().len() == 0,
            final(self).next_ticket_spec() == old(self).next_ticket_spec(),
            outcome_tickets(r@) == tickets_of(old(self).pending_spec()),
            all_ok(r@) ==> final(store)@ == old(store)@ + stored(
                pending_entries(old(self).pending_spec()),
                old(store).next_id_spec(),
            ),
            all_ok(r@) ==> final(store)@.len() == old(store)@.len() + old(self).pending_spec().len(),
            all_ok(r@) <==> old(self).pending_spec().len() <= u64::MAX - old(store).next_id_spec(),
            final(store)@.len() >= old(store)@.len(),
            final(store)@.subrange(0, old(store)@.len() as int) == old(store)@,
    {
        let ghost queued = self.pending@;
        let ghost s0 = store@;
        let ghost id0 = store.next_id_spec();
        let ghost mut done: int = 0;
        let mut out: Vec<WriteOutcome> = Vec::new();
        while self.pending.len() > 0
            invariant
                self.wf(),
                store.wf(),
                self.next_ticket == old(self).next_ticket_spec(),
                queued == old(self).pending_spec(),
                s0 == old(store)@,
                id0 == old(store).next_id_spec(),
                0 <= done <= queued.len(),
                self.pending@ == queued.skip(done),
                outcome_tickets(out@) == tickets_of(queued.take(done)),
                all_ok(out@) ==> store@ == s0 + stored(pending_entries(queued.take(done)), id0)
                    && store.next_id_spec() == id0 + done,
                queued.len() <= u64::MAX - id0 ==> all_ok(out@),
                store@.len() >= s0.len(),
                store@.subrange(0, s0.len() as int) == s0,
            decreases self.pending@.len(),
        {
            let ghost out_before = out@;
            let ghost store_before = store@;
            let ghost id_before = store.next_id_spec();
            let mut o = self.flush_chunk(store);
            let ghost n: int = queued.len() - done - self.pending@.len();
            proof {
                let q = queued.skip(done);
                assert(self.pending@ == q.skip(n));
                assert(n > 0);
                assert(q.take(n) =~= queued.subrange(done, done + n));
                assert(queued.take(done + n) =~= queued.take(done) + queued.subrange(done, done + n));
                assert(tickets_of(queued.take(done + n)) =~= tickets_of(queued.take(done)) + tickets_of(q.take(n)));
                assert(pending_entries(queued.take(done + n)) =~= pending_entries(queued.take(done)) + pending_entries(q.take(n)));
                assert(queued.skip(done + n) =~= q.skip(n));
            }
            let ghost o_now = o@;
            out.append(&mut o);
            proof {
                assert(outcome_tickets(out@) =~= outcome_tickets(out_before) + outcome_tickets(o_now));
                assert(o_now.len() == n) by {
                    assert(outcome_tickets(o_now).len() == o_now.len());
                    assert(tickets_of(queued.skip(done).take(n)).len() == n);
                }
                if queued.len() <= u64::MAX - id0 {
                    assert(all_ok(out_before));
                    assert(all_ok(o_now));
                    assert forall|k: int| 0 <= k < out@.len() implies (#[trigger] out@[k]).result is Ok by {
                        if k < out_before.len() {
                            assert(out@[k] == out_before[k]);
                        } else {
                            assert(out@[k] == o_now[k - out_before.len()]);
                        }
                    }
                }
                assert(store@.subrange(0, store_before.len() as int) =~= store_before);
                assert(store@.subrange(0, s0.len() as int) =~= store_before.subrange(0, s0.len() as int));
                if all_ok(out@) {
                    assert forall|k: int| 0 <= k < out_before.len() implies (#[trigger] out_before[k]).result is Ok by {
                        assert(out@[k] == out_before[k]);
                    }
                    assert forall|k: int| 0 <= k < o_now.len() implies (#[trigger] o_now[k]).result is Ok by {
                        assert(out@[out_before.len() + k] == o_now[k]);
                    }
                    let a = pending_entries(queued.take(done));
                    let b = pending_entries(queued.skip(done).take(n));
                    assert(stored(a + b, id0) =~= stored(a, id0) + stored(b, (id0 + a.len()) as u64));
                }
            }
            proof {
                done = done + n;
            }
        }
        assert(queued.take(done) =~= queued);
        proof {
            if all_ok(out@) {
                assert(stored(pending_entries(queued), id0).len() == queued.len()) by {
                    assert(pending_entries(queued).len() == queued.len());
                }
            }
        }
        out
    }
}

/// The result that a caller reports for its own submissions: success when
/// all succeeded, else the first failure.
pub fn combine_outcomes(outcomes: &[WriteOutcome]) -> (r: Result<(), QueueError>)
    ensures
        r == combined(outcomes@),
        r is Ok <==> all_ok(outcomes@),
{
    let mut i: usize = outcomes.len();
    let mut acc: Result<(), QueueError> = Ok(());
    while i > 0
        invariant
            i <= outcomes@.len(),
            acc == combined(outcomes@.skip(i as int)),
            acc is Ok <==> all_ok(outcomes@.skip(i as int)),
        decreases i,
    {
        i -= 1;
        let ghost s = outcomes@.skip(i as int);
        assert(s.drop_first() =~= outcomes@.skip(i + 1));
        assert(s[0] == outcomes@[i as int]);
        if outcomes[i].result.is_err() {
            acc = outcomes[i].result;
        }
        proof {
            if acc is Ok {
                assert forall|k: int| 0 <= k < s.len() implies (#[trigger] s[k]).result is Ok by {
                    if k > 0 {
                        assert(s[k] == s.drop_first()[k - 1]);
                    }
                }
            } else if outcomes@[i as int].result is Ok {
                assert(!all_ok(s.drop_first()));
                let k = choose|k: int| 0 <= k < s.drop_first().len() && (#[trigger] s.drop_first()[k]).result is Err;
                assert(s[k + 1] == s.drop_first()[k]);
            }
        }
    }
    assert(outcomes@.skip(0) =~= outcomes@);
    acc
}

} // verus!
