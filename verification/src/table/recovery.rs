//! What a table still holds when it is opened again.

use crate::backend::state::State;
use crate::backend::traits::DurableStorage;
use crate::error::StorageError;
use crate::table::change;
use crate::table::change::{Change, ChangeData};
use crate::table::replay;
use crate::table::table::{recovery_name, todo_of, Table};
use crate::topic::segment;
use crate::topic::writer;
use crate::topic::writer::Topic;
use vstd::prelude::*;

verus! {

/// The changes behind those that the rows are noted to have.
pub open spec fn pending(t: &Table) -> Seq<Seq<u8>> {
    replay::from_offset(t.topic_view().log(), t.recovery_view().committed())
}

/// The rows are what the pending changes make of `base`.
pub open spec fn follows(t: &Table, base: Map<Seq<u8>, Seq<u8>>) -> bool {
    &&& t.recovery_view().committed() <= t.topic_view().log().next()
    &&& t.rows() == change::replayed(base, pending(t))
}

/// Rows that are noted to have all changes follow from themselves. That is how a new table
/// starts, and how one is left by `persist` and by `open`.
pub proof fn noted_rows_follow(t: &Table)
    requires
        t.wf(),
        t.recovery_view().committed() == t.topic_view().log().next(),
    ensures
        pending(t) == Seq::<Seq<u8>>::empty(),
        follows(t, t.rows()),
{
    t.lemma_wf();
    t.topic_view().lemma_wf();
    assert(pending(t) =~= Seq::<Seq<u8>>::empty());
}

/// The rows as they are fit what they follow from: they may be kept at any time.
pub proof fn rows_fit(t: &Table, base: Map<Seq<u8>, Seq<u8>>)
    requires
        follows(t, base),
    ensures
        change::agree_beyond(t.rows(), base, pending(t)),
{
    change::lemma_replayed_beyond(base, pending(t));
}

/// A change that was recorded is among the pending ones, so the rows still follow from what they
/// followed from.
#[verifier::rlimit(30)]
pub proof fn recording_follows(
    before: &Table,
    after: &Table,
    c: ChangeData,
    r: Result<Change, StorageError>,
    base: Map<Seq<u8>, Seq<u8>>,
)
    requires
        before.wf(),
        after.wf(),
        before.recorded(after, c, r),
        r is Ok,
        c.current is Some,
        follows(before, base),
    ensures
        follows(after, base),
        pending(after) == pending(before).push(c.code()),
{
    before.lemma_wf();
    after.lemma_wf();
    before.topic_view().lemma_wf();
    after.topic_view().lemma_wf();
    let a = before.topic_view().log();
    let b = after.topic_view().log();
    let d = b.earliest() - a.earliest();
    let o = before.recovery_view().committed();
    assert(before.appended(after, c.code()));
    assert(b.records() == a.records().skip(d).push(c.code()));
    assert(pending(after) =~= pending(before).push(c.code()));
    change::lemma_sized(c);
    change::lemma_replayed_push(base, pending(before), c);
}

/// A table that is opened again has the rows and the receipts that it had. The rows may have been
/// kept at any time since they followed from `base`, so long as those that no pending change
/// touches are right: they may lack some of the pending changes, or have them. A change that was
/// cut off at the end of the topic while it was written is not seen. `rows` and `topic` are what
/// `open` found in the bytes, and `opened` is what it made of them.
pub proof fn reopening_keeps_rows(
    t: &Table,
    base: Map<Seq<u8>, Seq<u8>>,
    kept: Map<Seq<u8>, Seq<u8>>,
    state_image: Seq<u8>,
    causal_image: Seq<u8>,
    files: Seq<(u64, Vec<u8>)>,
    cut: Seq<u8>,
    rows: Map<Seq<u8>, Seq<u8>>,
    topic: Topic,
    opened: &Table,
)
    requires
        t.wf(),
        follows(t, base),
        change::agree_beyond(kept, base, pending(t)),
        State::keeps(t.config_view().state, state_image, kept),
        State::keeps(t.config_view().causal, causal_image, t.receipts()),
        segment::written_as(t.topic_view().log().kept(), files, cut),
        segment::no_record(cut),
        State::keeps(t.config_view().state, state_image, rows),
        State::keeps(t.config_view().causal, causal_image, opened.receipts()),
        Topic::opened_from(files, t.topic_view().store().offsets().image_view(), t.config_view().topic, topic),
        opened.rows() == change::replayed(rows, todo_of(topic)),
        opened.topic_view().log().same(topic.log()),
    ensures
        opened.rows() == t.rows(),
        opened.receipts() == t.receipts(),
        opened.topic_view().records() == t.topic_view().records(),
        opened.topic_view().log().next() == t.topic_view().log().next(),
{
    State::keeps_one(t.config_view().state, state_image, kept, rows);
    State::keeps_one(t.config_view().causal, causal_image, t.receipts(), opened.receipts());
    t.lemma_wf();
    writer::reopening_keeps_topic(&t.topic_view(), files, cut, topic);
    assert(topic.consumers().contains_key(recovery_name()));
    assert(todo_of(topic) == pending(t));
    change::replay_catches_up(kept, base, pending(t));
}

} // verus!
