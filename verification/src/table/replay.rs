//! Applying the changes of a topic to the rows of a store.

use crate::backend::state::{State, StateConfig};
use crate::backend::traits;
use crate::backend::traits::{ReadBackend, Storage, WriteBackend};
use crate::error::StorageError;
use crate::table::change;
use crate::table::change::Change;
use crate::topic::registry::Standing;
use crate::topic::segment::SegmentLog;
use vstd::prelude::*;

verus! {

/// A record that holds no change, or one to a row of a size that cannot be written.
pub open spec fn unplayable(config: StateConfig, record: Seq<u8>) -> bool {
    match change::parse(record) {
        None => true,
        Some(c) => c.current matches Some(v) && !State::takes(config, c.primary_key, v),
    }
}

/// The store has no room for the change of a record.
pub open spec fn blocked(s: State, record: Seq<u8>) -> bool {
    match change::parse(record) {
        None => false,
        Some(c) => match c.current {
            Some(v) => !s.room(c.primary_key, v),
            None => !s.can_delete(c.primary_key),
        },
    }
}

/// What the change of a record leaves of a store.
pub open spec fn applied(s: State, t: State, record: Seq<u8>) -> bool {
    match change::parse(record) {
        None => false,
        Some(c) => match c.current {
            Some(v) => traits::after_put(s, t, c.primary_key, v),
            None => traits::after_delete(s, t, c.primary_key),
        },
    }
}

/// What the changes of records, one after the other, leave of a store.
pub open spec fn applied_all(s: State, t: State, records: Seq<Seq<u8>>) -> bool
    decreases records.len(),
{
    if records.len() == 0 {
        t == s
    } else {
        exists|u: State| applied_all(s, u, records.drop_last()) && #[trigger] applied(u, t, records.last())
    }
}

/// The store has no room for change `n` once it has those before it.
pub open spec fn short(s: State, todo: Seq<Seq<u8>>, n: int) -> bool {
    exists|t: State| #[trigger] applied_all(s, t, todo.take(n)) && blocked(t, todo[n])
}

/// Why change `n` of those that are applied to a store was the first to fail.
pub open spec fn stopped(s: State, todo: Seq<Seq<u8>>, n: int, e: StorageError) -> bool {
    &&& 0 <= n < todo.len()
    &&& if e == StorageError::InvalidData {
        unplayable(s.settings(), todo[n])
    } else {
        e == StorageError::StorageFull && short(s, todo, n)
    }
}

/// The records hold changes that can be written, and the store has room for each of them.
pub open spec fn goes_through(s: State, todo: Seq<Seq<u8>>) -> bool {
    &&& forall|n: int| 0 <= n < todo.len() ==> !unplayable(s.settings(), #[trigger] todo[n])
    &&& forall|n: int| 0 <= n < todo.len() ==> !#[trigger] short(s, todo, n)
}

/// Applies the change of a record to a store.
pub fn apply(state: &mut State, record: &Vec<u8>) -> (r: Result<(), StorageError>)
    requires
        old(state).valid(),
    ensures
        final(state).valid(),
        final(state).settings() == old(state).settings(),
        match r {
            Ok(_) => {
                &&& !unplayable(old(state).settings(), record@)
                &&& change::parse(record@) is Some
                &&& final(state).map() == change::replay_one(old(state).map(), change::parse(record@)->Some_0)
                &&& applied(*old(state), *final(state), record@)
            },
            Err(StorageError::InvalidData) => unplayable(old(state).settings(), record@) && *final(state) == *old(
                state,
            ),
            Err(e) => {
                &&& e == StorageError::StorageFull
                &&& !unplayable(old(state).settings(), record@)
                &&& blocked(*old(state), record@)
                &&& final(state).map() == old(state).map()
            },
        },
{
    match Change::decode(record) {
        None => Err(StorageError::InvalidData),
        Some(change) => match change.current {
            Some(value) => {
                if !state.accepts(&change.event.primary_key, &value) {
                    return Err(StorageError::InvalidData);
                }
                state.put(change.event.primary_key, value)
            },
            None => match state.delete(&change.event.primary_key) {
                Ok(_) => Ok(()),
                Err(e) => Err(e),
            },
        },
    }
}

/// The records from an offset on, or from the first one where that is gone.
pub open spec fn from_offset(log: SegmentLog, o: u64) -> Seq<Seq<u8>> {
    if o < log.earliest() {
        log.records()
    } else if o <= log.next() {
        log.records().skip(o - log.earliest())
    } else {
        Seq::empty()
    }
}

/// Where a consumer starts in a topic that was just opened: where it committed, or behind the
/// last record where it is new.
pub open spec fn starts_at(name: Seq<u8>, consumers: Map<Seq<u8>, Standing>, next: u64) -> u64 {
    if consumers.contains_key(name) {
        consumers[name].committed
    } else {
        next
    }
}

/// A store that took the changes of records has the rows that they make of its own.
pub proof fn changes_leave_replayed_rows(s: State, t: State, records: Seq<Seq<u8>>)
    requires
        s.valid(),
        applied_all(s, t, records),
    ensures
        t.valid(),
        t.settings() == s.settings(),
        t.map() == change::replayed(s.map(), records),
        change::all_parse(records),
    decreases records.len(),
{
    if records.len() > 0 {
        let u = choose|u: State| applied_all(s, u, records.drop_last()) && #[trigger] applied(u, t, records.last());
        changes_leave_replayed_rows(s, u, records.drop_last());
        assert forall|i: int| 0 <= i < records.len() implies change::parse(#[trigger] records[i]) is Some by {
            if i < records.len() - 1 {
                assert(records.drop_last()[i] == records[i]);
            }
        }
    }
}

} // verus!
