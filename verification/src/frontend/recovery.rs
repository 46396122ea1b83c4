//! What a table still holds when it is opened again.

use crate::backend::state::State;
use crate::backend::traits::{DurableStorage, ReadBackend};
use crate::engine::maps;
use crate::engine::topic;
use crate::engine::topic::Topic;
use crate::frontend::table::{lost, todo_of, Table};
use crate::table::change;
use crate::table::change::{ChangeData, Event};
use crate::table::replay;
use crate::table::table::recovery_name;
use crate::topic::segment;
use vstd::prelude::*;

verus! {

/// The changes behind those that the store is noted to have.
pub open spec fn pending(t: &Table) -> Seq<Seq<u8>> {
    replay::from_offset(t.topic_view().log(), t.noted())
}

/// The rows are what the pending changes make of `base`, and the store differs from it in rows that
/// they touch alone.
pub open spec fn follows(t: &Table, base: Map<Seq<u8>, Seq<u8>>) -> bool {
    &&& t.noted() <= t.reached()
    &&& t.reached() == t.topic_view().log().next()
    &&& t.rows() == change::replayed(base, pending(t))
    &&& change::agree_beyond(t.state_view().map(), base, pending(t))
}

/// Rows that are all in the store, and noted to be there, follow from themselves. That is how a
/// new table starts, and how one is left by `open`.
pub proof fn noted_rows_follow(t: &Table)
    requires
        t.wf(),
        t.state_view().map() == t.rows(),
        t.noted() == t.reached(),
        t.reached() == t.topic_view().log().next(),
    ensures
        pending(t) == Seq::<Seq<u8>>::empty(),
        follows(t, t.rows()),
{
    t.lemma_wf();
    t.topic_view().lemma_wf();
    assert(pending(t) =~= Seq::<Seq<u8>>::empty());
}

/// Writing the rows in memory to the store keeps what the rows follow from, or notes them. Where it
/// fails, they still follow from what they followed from.
pub proof fn draining_follows(before: &Table, after: &Table, base: Map<Seq<u8>, Seq<u8>>)
    requires
        before.wf(),
        before.same_rows(after),
        after.reached() == before.reached(),
        before.settled(after) || before.partly_settled(after),
        follows(before, base),
    ensures
        follows(after, base) || follows(after, before.rows()),
        before.partly_settled(after) ==> follows(after, base),
{
    after.lemma_wf();
    after.topic_view().lemma_wf();
    if after.noted() == before.noted() {
        assert(pending(after) == pending(before));
    }
    if before.partly_settled(after) {
        lemma_partly(before, after, base);
    } else if after.noted() == before.reached() && after.state_view().map() == before.rows() {
        noted_rows_follow(after);
    }
}

proof fn lemma_partly(before: &Table, after: &Table, base: Map<Seq<u8>, Seq<u8>>)
    requires
        before.partly_settled(after),
        follows(before, base),
    ensures
        change::agree_beyond(after.state_view().map(), base, pending(before)),
{
    let records = pending(before);
    change::lemma_replayed_beyond(base, records);
    assert forall|k: Seq<u8>|
        #![trigger change::last_on(records, k)]
        change::last_on(records, k) < 0 implies maps::agree_at(after.state_view().map(), base, k) by {
        assert(maps::agree_at(before.state_view().map(), base, k));
        assert(maps::agree_at(before.rows(), base, k));
        assert(maps::agree_at(after.state_view().map(), before.state_view().map(), k) || maps::agree_at(
            after.state_view().map(),
            before.rows(),
            k,
        ));
    }
}

/// A change that was inserted is among the pending ones, so the rows still follow from what they
/// followed from, or from the rows before it where those were noted meanwhile.
pub proof fn inserting_follows(
    before: &Table,
    after: &Table,
    event: Event,
    current: Vec<u8>,
    base: Map<Seq<u8>, Seq<u8>>,
)
    requires
        before.wf(),
        after.wf(),
        before.inserted(after, event, Some(current), Ok(())),
        follows(before, base),
    ensures
        follows(after, base) || follows(after, before.rows()),
{
    let c: ChangeData = before.change_by(event, current@);
    let a = before.topic_view().log();
    let b = after.topic_view().log();
    let d = b.earliest() - a.earliest();
    before.lemma_wf();
    after.lemma_wf();
    before.topic_view().lemma_wf();
    after.topic_view().lemma_wf();
    assert(before.appended(after, c.code()));
    assert(b.records() == a.records().skip(d).push(c.code()));
    change::lemma_sized(c);
    if after.state_view().map() == before.state_view().map() && after.noted() == before.noted() {
        assert(pending(after) =~= pending(before).push(c.code()));
        change::lemma_replayed_push(base, pending(before), c);
        lemma_beyond_push(after.state_view().map(), base, pending(before), c.code());
    } else {
        assert(after.noted() == a.next());
        assert(pending(after) =~= Seq::<Seq<u8>>::empty().push(c.code()));
        change::lemma_replayed_push(before.rows(), Seq::empty(), c);
        assert(change::replayed(before.rows(), Seq::<Seq<u8>>::empty()) == before.rows());
    }
}

/// One more record leaves fewer rows untouched.
proof fn lemma_beyond_push(
    a: Map<Seq<u8>, Seq<u8>>,
    b: Map<Seq<u8>, Seq<u8>>,
    records: Seq<Seq<u8>>,
    record: Seq<u8>,
)
    requires
        change::agree_beyond(a, b, records),
    ensures
        change::agree_beyond(a, b, records.push(record)),
{
    let all = records.push(record);
    assert(all.drop_last() =~= records);
    assert forall|k: Seq<u8>|
        #![trigger change::last_on(all, k)]
        change::last_on(all, k) < 0 implies maps::agree_at(a, b, k) by {
        assert(change::last_on(records, k) < 0);
    }
}

/// A table that is opened again has the rows that it had, those that waited in memory too. The
/// store may have been kept at any time since the rows followed from `base`, so long as the rows
/// that no pending change touches are right; as it stands it is. A change that was cut off at the
/// end of the topic while it was written is not seen. `rows` and `topic` are what `open` found in
/// the bytes, and `opened` is what it made of them.
pub proof fn reopening_keeps_rows(
    t: &Table,
    base: Map<Seq<u8>, Seq<u8>>,
    kept: Map<Seq<u8>, Seq<u8>>,
    state_image: Seq<u8>,
    files: Seq<(u64, Vec<u8>)>,
    cut: Seq<u8>,
    rows: Map<Seq<u8>, Seq<u8>>,
    topic: Topic,
    opened: &Table,
)
    requires
        t.wf(),
        follows(t, base),
        change::agree_beyond(kept, base, pending(t)),
        State::keeps(t.config_view().state, state_image, kept),
        segment::written_as(t.topic_view().log().kept(), files, cut),
        segment::no_record(cut),
        State::keeps(t.config_view().state, state_image, rows),
        Topic::opened_from(files, t.topic_view().store().offsets().image_view(), t.config_view().topic, topic),
        opened.rows() == change::replayed(rows, todo_of(topic)),
        opened.topic_view().log().same(topic.log()),
    ensures
        opened.rows() == t.rows(),
        opened.topic_view().records() == t.topic_view().records(),
        opened.topic_view().log().next() == t.topic_view().log().next(),
        t.topic_view().log().earliest() <= t.noted() ==> !lost(topic),
{
    State::keeps_one(t.config_view().state, state_image, kept, rows);
    t.lemma_wf();
    topic::reopening_keeps_topic(&t.topic_view(), files, cut, topic);
    assert(topic.consumers().contains_key(recovery_name()));
    assert(todo_of(topic) == pending(t));
    change::replay_catches_up(kept, base, pending(t));
}

} // verus!
