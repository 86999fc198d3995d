//! What happens to changed indexes when a transaction ends.
//!
//! Inserts change an index in memory only and leave it dirty. At the end of the transaction every
//! dirty index is checked first; only when all of them pass is any written. The hooks that bring this
//! about are registered by the first insert of a transaction.
use crate::relfile::{first_bad, first_duplicate_id, lemma_first_bad};
use vstd::prelude::*;

verus! {

/// The row count that goes to disk: `slot_to_id_len`, the length of the table whose bytes land there,
/// provided that the separately kept mirror agrees with it. Otherwise both numbers come back.
pub fn reconciled_row_count(mirror_n_vectors: i64, slot_to_id_len: usize) -> (r: Result<
    u64,
    (i64, usize),
>)
    ensures
        r == (if mirror_n_vectors == slot_to_id_len {
            Ok::<u64, (i64, usize)>(slot_to_id_len as u64)
        } else {
            Err::<u64, (i64, usize)>((mirror_n_vectors, slot_to_id_len))
        }),
{
    if mirror_n_vectors < 0 || mirror_n_vectors as u64 != slot_to_id_len as u64 {
        return Err((mirror_n_vectors, slot_to_id_len));
    }
    Ok(slot_to_id_len as u64)
}

/// Why an index must not be flushed.
#[derive(Clone, Copy, Debug, PartialEq, Eq, Structural)]
pub enum SnapshotError {
    /// The mirrored row count is not the number of rows.
    Drift { mirror: i64, rows: usize },
    /// An id is zero, or stands in more than one slot.
    BadId { id: u64 },
}

/// A dirty index, as far as it is checked before it is flushed.
pub struct DirtyIndex<'a> {
    /// The index.
    pub rel_oid: u32,
    /// The row count that is kept beside the id table.
    pub mirror: i64,
    /// The id of each slot.
    pub ids: &'a [u64],
}

/// What stands against flushing an index with this mirrored count and these ids.
pub open spec fn snapshot_fault(mirror: i64, ids: Seq<u64>) -> Option<SnapshotError> {
    if mirror != ids.len() {
        Some(SnapshotError::Drift { mirror, rows: ids.len() as usize })
    } else {
        match first_bad(ids) {
            Some(slot) => Some(SnapshotError::BadId { id: ids[slot] }),
            None => None,
        }
    }
}

/// The first dirty index that must not be flushed.
pub open spec fn first_faulty(dirty: Seq<DirtyIndex>) -> Option<int>
    decreases dirty.len(),
{
    if dirty.len() == 0 {
        None
    } else {
        match first_faulty(dirty.drop_last()) {
            Some(k) => Some(k),
            None => if snapshot_fault(dirty.last().mirror, dirty.last().ids@) is Some {
                Some(dirty.len() - 1)
            } else {
                None
            },
        }
    }
}

/// Checks one dirty index without touching a page, and says how many rows it has.
pub fn validate_flush_snapshot(mirror: i64, ids: &[u64]) -> (r: Result<u64, SnapshotError>)
    ensures
        r == match snapshot_fault(mirror, ids@) {
            Some(e) => Err::<u64, SnapshotError>(e),
            None => Ok::<u64, SnapshotError>(ids@.len() as u64),
        },
{
    match reconciled_row_count(mirror, ids.len()) {
        Ok(rows) => match first_duplicate_id(ids) {
            Some(id) => Err(SnapshotError::BadId { id }),
            None => Ok(rows),
        },
        Err((mirror, rows)) => Err(SnapshotError::Drift { mirror, rows }),
    }
}

/// Checks every dirty index before any is flushed. The result lists the indexes to flush, in order:
/// all of them, or none when one is faulty, which is then named.
pub fn pre_commit(dirty: &[DirtyIndex]) -> (r: Result<Vec<u32>, (u32, SnapshotError)>)
    ensures
        match first_faulty(dirty@) {
            Some(k) => {
                &&& 0 <= k < dirty@.len()
                &&& snapshot_fault(dirty@[k].mirror, dirty@[k].ids@) is Some
                &&& r == Err::<Vec<u32>, (u32, SnapshotError)>(
                    (
                        dirty@[k].rel_oid,
                        snapshot_fault(dirty@[k].mirror, dirty@[k].ids@)->0,
                    ),
                )
            },
            None => {
                &&& r is Ok
                &&& r->Ok_0@ == Seq::new(dirty@.len(), |i: int| dirty@[i].rel_oid)
            },
        },
{
    let mut out: Vec<u32> = Vec::new();
    let mut i: usize = 0;
    while i < dirty.len()
        invariant
            i <= dirty@.len(),
            first_faulty(dirty@.take(i as int)) is None,
            out@ == Seq::new(i as nat, |j: int| dirty@[j].rel_oid),
        decreases dirty@.len() - i,
    {
        proof {
            assert(dirty@.take(i + 1).drop_last() =~= dirty@.take(i as int));
            assert(dirty@.take(i + 1).last() == dirty@[i as int]);
        }
        match validate_flush_snapshot(dirty[i].mirror, dirty[i].ids) {
            Ok(_) => {
                out.push(dirty[i].rel_oid);
            },
            Err(e) => {
                proof {
                    lemma_first_faulty_prefix(dirty@, (i + 1) as nat);
                }
                return Err((dirty[i].rel_oid, e));
            },
        }
        i += 1;
    }
    assert(dirty@.take(i as int) =~= dirty@);
    Ok(out)
}

proof fn lemma_first_faulty_prefix(dirty: Seq<DirtyIndex>, k: nat)
    requires
        k <= dirty.len(),
        first_faulty(dirty.take(k as int)) is Some,
    ensures
        first_faulty(dirty) == first_faulty(dirty.take(k as int)),
    decreases dirty.len(),
{
    if k < dirty.len() {
        assert(dirty.drop_last().take(k as int) =~= dirty.take(k as int));
        lemma_first_faulty_prefix(dirty.drop_last(), k);
    } else {
        assert(dirty.take(k as int) =~= dirty);
    }
}

/// Indexes are flushed together or not at all: none is named for flushing unless each of them has as
/// many rows as its mirror says, and ids that are distinct and not zero.
pub proof fn nothing_is_flushed_beside_a_faulty_index(dirty: Seq<DirtyIndex>)
    ensures
        first_faulty(dirty) is None <==> forall|i: int|
            0 <= i < dirty.len() ==> {
                let d = #[trigger] dirty[i];
                d.mirror == d.ids@.len() && d.ids@.no_duplicates() && !d.ids@.contains(0)
            },
    decreases dirty.len(),
{
    if dirty.len() > 0 {
        let head = dirty.drop_last();
        let d = dirty.last();
        nothing_is_flushed_beside_a_faulty_index(head);
        lemma_first_bad(d.ids@);
        if let Some(slot) = first_bad(d.ids@) {
            if d.ids@[slot] == 0 {
                assert(d.ids@.contains(0));
            } else {
                let before = d.ids@.take(slot);
                assert(before.contains(d.ids@[slot]));
                let j = choose|j: int| 0 <= j < before.len() && before[j] == d.ids@[slot];
                assert(d.ids@[j] == d.ids@[slot]);
            }
        }
        assert(dirty[dirty.len() - 1] == d);
        assert forall|i: int| 0 <= i < head.len() implies head[i] == #[trigger] dirty[i] by {}
        if first_faulty(dirty) is None {
            assert forall|i: int| 0 <= i < dirty.len() implies {
                let d = #[trigger] dirty[i];
                d.mirror == d.ids@.len() && d.ids@.no_duplicates() && !d.ids@.contains(0)
            } by {
                if i < head.len() {
                    assert(head[i] == dirty[i]);
                }
            }
        } else if first_faulty(head) is Some {
            let i = choose|i: int|
                0 <= i < head.len() && {
                    let d = #[trigger] head[i];
                    !(d.mirror == d.ids@.len() && d.ids@.no_duplicates() && !d.ids@.contains(0))
                };
            assert(dirty[i] == head[i]);
        }
    }
}

/// What a backend goes through in a transaction.
#[derive(Clone, Copy, Debug, PartialEq, Eq, Structural)]
pub enum XactEvent {
    /// A row is inserted.
    Insert,
    /// The transaction is about to commit.
    PreCommit,
    /// The transaction rolls back.
    Abort,
    /// A savepoint rolls back.
    AbortSub,
}

/// What is to be done on an event.
#[derive(Clone, Copy, Debug, PartialEq, Eq, Structural)]
pub enum XactAction {
    /// Nothing.
    Rest,
    /// Register the hooks for the end of the transaction and of its savepoints.
    Register,
    /// Check and flush the dirty indexes.
    Flush,
    /// Forget the dirty indexes, so that they are read again from disk.
    Forget,
}

/// Whether the hooks of the running transaction are registered.
pub struct XactHooks {
    pub registered: bool,
}

/// Whether the hooks are registered after an event.
pub open spec fn registered_after(registered: bool, event: XactEvent) -> bool {
    match event {
        XactEvent::Insert => true,
        XactEvent::PreCommit => false,
        XactEvent::Abort => false,
        XactEvent::AbortSub => registered,
    }
}

/// What is to be done on an event.
pub open spec fn action_on(registered: bool, event: XactEvent) -> XactAction {
    match event {
        XactEvent::Insert => if registered {
            XactAction::Rest
        } else {
            XactAction::Register
        },
        XactEvent::PreCommit => XactAction::Flush,
        XactEvent::Abort => XactAction::Forget,
        XactEvent::AbortSub => XactAction::Forget,
    }
}

impl XactHooks {
    /// No hook is registered.
    pub fn new() -> (r: XactHooks)
        ensures
            !r.registered,
    {
        XactHooks { registered: false }
    }

    /// Takes one event.
    pub fn on(&mut self, event: XactEvent) -> (r: XactAction)
        ensures
            r == action_on(old(self).registered, event),
            final(self).registered == registered_after(old(self).registered, event),
    {
        match event {
            XactEvent::Insert => {
                if self.registered {
                    return XactAction::Rest;
                }
                self.registered = true;
                XactAction::Register
            },
            XactEvent::PreCommit => {
                self.registered = false;
                XactAction::Flush
            },
            XactEvent::Abort => {
                self.registered = false;
                XactAction::Forget
            },
            XactEvent::AbortSub => XactAction::Forget,
        }
    }
}

/// Whether the hooks are registered after several events.
pub open spec fn registered_in_the_end(registered: bool, events: Seq<XactEvent>) -> bool
    decreases events.len(),
{
    if events.len() == 0 {
        registered
    } else {
        registered_after(registered_in_the_end(registered, events.drop_last()), events.last())
    }
}

/// How often several events have the hooks registered.
pub open spec fn registrations(registered: bool, events: Seq<XactEvent>) -> nat
    decreases events.len(),
{
    if events.len() == 0 {
        0
    } else {
        registrations(registered, events.drop_last()) + (if action_on(
            registered_in_the_end(registered, events.drop_last()),
            events.last(),
        ) is Register {
            1nat
        } else {
            0nat
        })
    }
}

/// Within one transaction the hooks are registered once, by its first insert, and not at all when it
/// inserts nothing.
pub proof fn hooks_are_registered_once(events: Seq<XactEvent>)
    requires
        forall|i: int|
            0 <= i < events.len() ==> {
                let e = #[trigger] events[i];
                e is Insert || e is AbortSub
            },
    ensures
        registrations(false, events) == (if events.contains(XactEvent::Insert) {
            1nat
        } else {
            0nat
        }),
        registered_in_the_end(false, events) == events.contains(XactEvent::Insert),
    decreases events.len(),
{
    if events.len() > 0 {
        let head = events.drop_last();
        hooks_are_registered_once(head);
        assert(events =~= head.push(events.last()));
        assert(events.contains(XactEvent::Insert) == (head.contains(XactEvent::Insert)
            || events.last() is Insert)) by {
            if head.contains(XactEvent::Insert) {
                let i = choose|i: int| 0 <= i < head.len() && head[i] == XactEvent::Insert;
                assert(events[i] == XactEvent::Insert);
            }
            if events.last() is Insert {
                assert(events[events.len() - 1] == XactEvent::Insert);
            }
            if events.contains(XactEvent::Insert) && !(events.last() is Insert) {
                let i = choose|i: int| 0 <= i < events.len() && events[i] == XactEvent::Insert;
                assert(head[i] == XactEvent::Insert);
            }
        }
    }
}

/// The end of a transaction leaves no hook registered, so the next one starts afresh.
pub proof fn every_transaction_starts_unregistered(registered: bool, events: Seq<XactEvent>)
    requires
        events.len() > 0,
        events.last() is PreCommit || events.last() is Abort,
    ensures
        !registered_in_the_end(registered, events),
{
}

} // verus!
