use vstd::prelude::*;
use crate::coalescer::{outcome_tickets, tickets_of, PendingWrite, WriteOutcome};
use crate::entry::EntryView;
use crate::store::{
    group_of, history, ids_ascending, is_due, remaining_after_del, scan, selected_groups, stored,
    stored_id, GroupTag,
};

verus! {

/// Appending freshly stored entries keeps identities unique and ascending.
pub proof fn lemma_store_keeps_ids_ascending(rows: Seq<EntryView>, next_id: u64, entries: Seq<EntryView>)
    requires
        ids_ascending(rows, next_id),
        entries.len() <= u64::MAX - next_id,
    ensures
        ids_ascending(rows + stored(entries, next_id), (next_id + entries.len()) as u64),
{
    let after = rows + stored(entries, next_id);
    assert forall|i: int, j: int| 0 <= i < j < after.len() implies stored_id(#[trigger] after[i]) < stored_id(#[trigger] after[j]) by {
        if j >= rows.len() && i < rows.len() {
            assert(stored_id(after[i]) < next_id);
        }
    }
}

/// Once `add_many` has stored `entries` after `rows`, the history of the key of
/// each of them holds that entry with its new identity, and no other stored
/// entry carries that identity.
pub proof fn lemma_added_entry_in_history(rows: Seq<EntryView>, next_id: u64, entries: Seq<EntryView>, i: int)
    requires
        ids_ascending(rows, next_id),
        entries.len() <= u64::MAX - next_id,
        0 <= i < entries.len(),
    ensures
        ({
            let after = rows + stored(entries, next_id);
            let id = Some((next_id + i) as u64);
            &&& history(after, entries[i].key).contains(entries[i].with_id(id))
            &&& forall|j: int| 0 <= j < after.len() && (#[trigger] after[j]).id == id
                ==> after[j] == entries[i].with_id(id)
        }),
{
    let after = rows + stored(entries, next_id);
    let id = Some((next_id + i) as u64);
    let k = rows.len() + i;
    assert(after[k] == entries[i].with_id(id));
    let pred = |e: EntryView| e.key == entries[i].key;
    after.lemma_filter_contains(pred, k);
    lemma_store_keeps_ids_ascending(rows, next_id, entries);
    assert forall|j: int| 0 <= j < after.len() && (#[trigger] after[j]).id == id implies after[j] == entries[i].with_id(id) by {
        if j < k {
            assert(stored_id(after[j]) < stored_id(after[k]));
        } else if j > k {
            assert(stored_id(after[k]) < stored_id(after[j]));
        }
    }
}

proof fn lemma_filter_idempotent(s: Seq<EntryView>, p: spec_fn(EntryView) -> bool)
    ensures
        s.filter(p).filter(p) == s.filter(p),
    decreases s.len(),
{
    reveal(Seq::filter);
    if s.len() > 0 {
        lemma_filter_idempotent(s.drop_last(), p);
        if p(s.last()) {
            let f = s.drop_last().filter(p);
            assert(f.push(s.last()).drop_last() =~= f);
        }
    }
}

/// Deleting the same entries a second time deletes nothing more.
pub proof fn lemma_del_idempotent(rows: Seq<EntryView>, entries: Seq<EntryView>)
    ensures
        remaining_after_del(remaining_after_del(rows, entries), entries) == remaining_after_del(rows, entries),
{
    let p = |e: EntryView| !crate::store::names_id(entries, e.id);
    lemma_filter_idempotent(rows, p);
}

/// Entries of one operation in one multiplex are scanned together: whenever
/// the scan returns one of them, it returns every other one as well, whatever
/// its timestamp.
pub proof fn lemma_scan_keeps_groups_whole(
    rows: Seq<EntryView>,
    pattern: Option<Seq<char>>,
    m: i32,
    older_than: i64,
    limit: nat,
    a: EntryView,
    b: EntryView,
)
    requires
        rows.contains(b),
        a.operation_key != 0,
        b.operation_key == a.operation_key,
        a.multiplex_id == m,
        b.multiplex_id == m,
        scan(rows, pattern, m, older_than, limit).contains(a),
    ensures
        scan(rows, pattern, m, older_than, limit).contains(b),
{
    let sel = selected_groups(rows, pattern, m, older_than, limit);
    let pred = |e: EntryView| e.multiplex_id == m && sel.contains(group_of(e));
    let f = rows.filter(pred);
    let x = choose|x: int| 0 <= x < f.len() && f[x] == a;
    rows.lemma_filter_pred(pred, x);
    let y = choose|y: int| 0 <= y < rows.len() && rows[y] == b;
    rows.lemma_filter_contains(pred, y);
}

proof fn lemma_selected_groups_come_from_due_rows(
    rows: Seq<EntryView>,
    pattern: Option<Seq<char>>,
    m: i32,
    older_than: i64,
    limit: nat,
    t: GroupTag,
)
    requires
        selected_groups(rows, pattern, m, older_than, limit).contains(t),
    ensures
        exists|j: int| 0 <= j < rows.len() && is_due(#[trigger] rows[j], pattern, m, older_than) && group_of(rows[j]) == t,
    decreases rows.len(),
{
    let prev = selected_groups(rows.drop_last(), pattern, m, older_than, limit);
    if prev.contains(t) {
        lemma_selected_groups_come_from_due_rows(rows.drop_last(), pattern, m, older_than, limit, t);
        let j = choose|j: int| 0 <= j < rows.drop_last().len() && is_due(#[trigger] rows.drop_last()[j], pattern, m, older_than) && group_of(rows.drop_last()[j]) == t;
        assert(rows[j] == rows.drop_last()[j]);
    } else {
        let last = rows.len() - 1;
        assert(rows[last] == rows.last());
        if !(t == group_of(rows.last())) {
            let sel = selected_groups(rows, pattern, m, older_than, limit);
            let q = choose|q: int| 0 <= q < sel.len() && sel[q] == t;
            if is_due(rows.last(), pattern, m, older_than) && prev.len() < limit && !prev.contains(group_of(rows.last())) {
                assert(sel == prev.push(group_of(rows.last())));
                assert(q < prev.len());
                assert(prev[q] == t);
            }
        }
    }
}

/// Entries without an operation are never scanned on account of another
/// entry: the scan returns such a stored entry only when it is itself due.
pub proof fn lemma_scan_isolates_unkeyed_entries(
    rows: Seq<EntryView>,
    next_id: u64,
    pattern: Option<Seq<char>>,
    m: i32,
    older_than: i64,
    limit: nat,
    k: int,
)
    requires
        ids_ascending(rows, next_id),
        0 <= k < rows.len(),
        rows[k].operation_key == 0,
        scan(rows, pattern, m, older_than, limit).contains(rows[k]),
    ensures
        is_due(rows[k], pattern, m, older_than),
{
    let sel = selected_groups(rows, pattern, m, older_than, limit);
    let pred = |e: EntryView| e.multiplex_id == m && sel.contains(group_of(e));
    let f = rows.filter(pred);
    let x = choose|x: int| 0 <= x < f.len() && f[x] == rows[k];
    rows.lemma_filter_pred(pred, x);
    lemma_selected_groups_come_from_due_rows(rows, pattern, m, older_than, limit, group_of(rows[k]));
    let j = choose|j: int| 0 <= j < rows.len() && is_due(#[trigger] rows[j], pattern, m, older_than) && group_of(rows[j]) == group_of(rows[k]);
    if j != k {
        if j < k {
            assert(stored_id(rows[j]) < stored_id(rows[k]));
        } else {
            assert(stored_id(rows[k]) < stored_id(rows[j]));
        }
    }
}

/// Two different stored entries without an operation never share a group.
pub proof fn lemma_unkeyed_entries_apart(rows: Seq<EntryView>, next_id: u64, i: int, j: int)
    requires
        ids_ascending(rows, next_id),
        0 <= i < j < rows.len(),
        rows[i].operation_key == 0,
        rows[j].operation_key == 0,
    ensures
        group_of(rows[i]) != group_of(rows[j]),
{
    assert(stored_id(rows[i]) < stored_id(rows[j]));
}

/// The entries of several submissions, one submission after another.
pub open spec fn concat_batches(batches: Seq<Seq<EntryView>>) -> Seq<EntryView>
    decreases batches.len(),
{
    if batches.len() == 0 {
        Seq::empty()
    } else {
        concat_batches(batches.drop_last()) + batches.last()
    }
}

/// The entries with their identities cleared.
pub open spec fn without_ids(s: Seq<EntryView>) -> Seq<EntryView> {
    s.map_values(|e: EntryView| e.with_id(None))
}

proof fn lemma_concat_batches_len(batches: Seq<Seq<EntryView>>, k: nat)
    requires
        forall|i: int| 0 <= i < batches.len() ==> (#[trigger] batches[i]).len() == k,
    ensures
        concat_batches(batches).len() == batches.len() * k,
    decreases batches.len(),
{
    if batches.len() > 0 {
        let n = batches.len();
        lemma_concat_batches_len(batches.drop_last(), k);
        assert(batches.last().len() == k);
        assert((n - 1) * k + k == n * k) by (nonlinear_arith);
    }
}

/// When `batches.len()` callers each submitted `k` entries and a drain
/// answered every submission with success, the store (`after`, as the drain
/// states it) holds its old entries followed by exactly the submitted ones:
/// `batches.len() * k` more entries, and, identities aside, none lost,
/// duplicated or taken for another.
pub proof fn lemma_coalesced_submissions_all_stored(
    rows: Seq<EntryView>,
    next_id: u64,
    batches: Seq<Seq<EntryView>>,
    k: nat,
    after: Seq<EntryView>,
)
    requires
        forall|i: int| 0 <= i < batches.len() ==> (#[trigger] batches[i]).len() == k,
        after == rows + stored(concat_batches(batches), next_id),
    ensures
        after.len() == rows.len() + batches.len() * k,
        after.subrange(0, rows.len() as int) == rows,
        without_ids(after.subrange(rows.len() as int, after.len() as int)) == without_ids(concat_batches(batches)),
{
    lemma_concat_batches_len(batches, k);
    let c = concat_batches(batches);
    assert(after.subrange(0, rows.len() as int) =~= rows);
    assert(after.subrange(rows.len() as int, after.len() as int) =~= stored(c, next_id));
    assert(without_ids(stored(c, next_id)) =~= without_ids(c));
}

/// When the outcomes of a drain carry the tickets of the pending submissions,
/// and those tickets ascend, every submission receives exactly one outcome.
pub proof fn lemma_each_submission_resolved_once(
    pending: Seq<PendingWrite>,
    outcomes: Seq<WriteOutcome>,
    k: int,
)
    requires
        forall|i: int, j: int| 0 <= i < j < pending.len() ==> (#[trigger] pending[i]).ticket < (#[trigger] pending[j]).ticket,
        outcome_tickets(outcomes) == tickets_of(pending),
        0 <= k < pending.len(),
    ensures
        outcomes[k].ticket == pending[k].ticket,
        forall|j: int| 0 <= j < outcomes.len() && (#[trigger] outcomes[j]).ticket == pending[k].ticket ==> j == k,
{
    assert(outcome_tickets(outcomes).len() == outcomes.len());
    assert(tickets_of(pending).len() == pending.len());
    assert(outcome_tickets(outcomes)[k] == outcomes[k].ticket);
    assert(tickets_of(pending)[k] == pending[k].ticket);
    assert forall|j: int| 0 <= j < outcomes.len() && (#[trigger] outcomes[j]).ticket == pending[k].ticket implies j == k by {
        assert(outcome_tickets(outcomes)[j] == outcomes[j].ticket);
        assert(tickets_of(pending)[j] == pending[j].ticket);
        if j < k {
            assert(pending[j].ticket < pending[k].ticket);
        } else if k < j {
            assert(pending[k].ticket < pending[j].ticket);
        }
    }
}

} // verus!
