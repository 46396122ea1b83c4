//! A table: materialized rows, what has been received from each author, and the topic of the
//! changes.
//!
//! What an event does to a row is decided outside, by a function from the row before to the row
//! after. The table numbers events, refuses what it has seen, writes changes to its topic before
//! it changes the row, and replays the topic when it is opened.

use crate::backend::state::{State, StateConfig, StateStats};
use crate::backend::traits;
use crate::backend::traits::{DurableStorage, OrderedReadBackend, ReadBackend, Storage, WriteBackend};
use crate::engine::btree;
use crate::engine::keydir;
use crate::engine::keydir::KeyDirConfig;
use crate::engine::log;
use crate::engine::maps;
use crate::error::StorageError;
use crate::table::change;
use crate::table::change::{Change, ChangeData, Event};
use crate::table::receipt;
use crate::table::receipt::{ReceiptWindow, Window};
use crate::table::replay;
use crate::topic::consumer::TopicConsumer;
use crate::topic::reader;
use crate::topic::reader::{SeekTarget, TopicReader};
use crate::topic::registry::Standing;
use crate::topic::segment;
use crate::topic::store;
use crate::topic::store::TopicStats;
use crate::topic::types;
use crate::topic::types::TopicConfig;
use crate::topic::writer::Topic;
use crate::utils::key::Key;
use vstd::prelude::*;

verus! {

/// The name of the consumer that knows how far the rows are written: `__zendb_table_recovery`.
pub open spec fn recovery_name() -> Seq<u8> {
    seq![
        95u8,
        95,
        122,
        101,
        110,
        100,
        98,
        95,
        116,
        97,
        98,
        108,
        101,
        95,
        114,
        101,
        99,
        111,
        118,
        101,
        114,
        121,
    ]
}

pub fn recovery_name_bytes() -> (r: Vec<u8>)
    ensures
        r@ == recovery_name(),
{
    let r: Vec<u8> = vec![
        95u8,
        95,
        122,
        101,
        110,
        100,
        98,
        95,
        116,
        97,
        98,
        108,
        101,
        95,
        114,
        101,
        99,
        111,
        118,
        101,
        114,
        121,
    ];
    assert(r@ =~= recovery_name());
    r
}

/// What became of an event.
pub enum InsertOutcome {
    /// It changed nothing.
    Ignored,
    /// It changed its row.
    Applied(Change),
}

#[derive(Clone, Copy, Debug)]
pub struct TableConfig {
    pub state: StateConfig,
    pub causal: StateConfig,
    pub topic: TopicConfig,
}

impl Default for TableConfig {
    fn default() -> (r: Self)
        ensures
            r.state == StateConfig::Ordered(btree::usual()),
            r.causal == StateConfig::Unordered(keydir::usual()),
            r.topic.max_segment_bytes == types::DEFAULT_MAX_SEGMENT_BYTES,
            r.topic.sparse_index_stride == types::DEFAULT_SPARSE_INDEX_STRIDE,
            r.topic.offsets == keydir::usual(),
    {
        TableConfig {
            state: StateConfig::default(),
            causal: StateConfig::Unordered(KeyDirConfig::default()),
            topic: TopicConfig::default(),
        }
    }
}

#[derive(Clone, Copy, Debug)]
pub struct TableStats {
    pub state: StateStats,
    pub causal: StateStats,
    pub topic: TopicStats,
}

/// The bytes are those of a window in order.
pub open spec fn is_window(b: Seq<u8>, w: Window) -> bool {
    w.wf() && w.missing.len() <= u64::MAX && w.code() == b
}

/// The bytes are those of some window in order.
pub open spec fn holds_window(b: Seq<u8>) -> bool {
    exists|w: Window| is_window(b, w)
}

/// The window whose bytes they are.
pub open spec fn window_in(b: Seq<u8>) -> Window {
    choose|w: Window| is_window(b, w)
}

/// All that is stored about authors are windows.
pub open spec fn receipts_ok(m: Map<Seq<u8>, Seq<u8>>) -> bool {
    forall|k: Seq<u8>| #[trigger] m.contains_key(k) ==> holds_window(m[k])
}

/// What has been received from an author.
pub open spec fn receipt_of(m: Map<Seq<u8>, Seq<u8>>, author: Seq<u8>) -> Window {
    if m.contains_key(author) {
        window_in(m[author])
    } else {
        receipt::no_receipts()
    }
}

/// The changes that the rows may not have yet, in a topic that was just opened.
pub open spec fn todo_of(t: Topic) -> Seq<Seq<u8>> {
    replay::from_offset(t.log(), replay::starts_at(recovery_name(), t.consumers(), t.log().next()))
}

/// The offset of the recovery cannot be stored, or, where it is new, not stored and then moved.
pub open spec fn cramped(t: Topic) -> bool {
    if t.consumers().contains_key(recovery_name()) {
        !t.store().offset_room(recovery_name())
    } else {
        !t.store().two_offsets_room(recovery_name())
    }
}

/// All consumers but the recovery stand as they stood.
pub open spec fn others_stay(before: Map<Seq<u8>, Standing>, after: Map<Seq<u8>, Standing>) -> bool {
    after =~= before.insert(recovery_name(), after[recovery_name()])
}

/// The parts of a table.
pub struct Table {
    config: TableConfig,
    state: State,
    causal: State,
    topic: Topic,
    recovery: TopicConsumer,
}

/// The change that an event makes.
pub open spec fn change_of(e: Event, sequence: u64, previous: Option<Seq<u8>>, current: Seq<u8>) -> ChangeData {
    ChangeData {
        author: e.author@,
        sequence,
        primary_key: e.primary_key@,
        operations: e.operations@,
        previous,
        current: Some(current),
    }
}

/// The value under a key, if there is one.
pub open spec fn value_of(m: Map<Seq<u8>, Seq<u8>>, k: Seq<u8>) -> Option<Seq<u8>> {
    if m.contains_key(k) {
        Some(m[k])
    } else {
        None
    }
}

impl Table {
    pub closed spec fn state_view(&self) -> State {
        self.state
    }

    pub closed spec fn causal_view(&self) -> State {
        self.causal
    }

    pub closed spec fn topic_view(&self) -> Topic {
        self.topic
    }

    pub closed spec fn recovery_view(&self) -> TopicConsumer {
        self.recovery
    }

    pub closed spec fn config_view(&self) -> TableConfig {
        self.config
    }

    /// The rows.
    pub open spec fn rows(&self) -> Map<Seq<u8>, Seq<u8>> {
        self.state_view().map()
    }

    /// What is stored about authors.
    pub open spec fn receipts(&self) -> Map<Seq<u8>, Seq<u8>> {
        self.causal_view().map()
    }

    /// What has been received from an author.
    pub open spec fn received(&self, author: Seq<u8>) -> Window {
        receipt_of(self.receipts(), author)
    }

    pub closed spec fn wf(&self) -> bool {
        &&& self.state.valid()
        &&& self.causal.valid()
        &&& self.topic.wf()
        &&& self.recovery.ok(&self.topic)
        &&& self.recovery.name() == recovery_name()
        &&& self.topic.consumers()[recovery_name()].active
        &&& self.state.settings() == self.config.state
        &&& self.causal.settings() == self.config.causal
        &&& self.topic.config_view() == self.config.topic
        &&& receipts_ok(self.causal.map())
    }

    /// The stores of the rows and of the receipts are in order.
    pub proof fn lemma_stores(&self)
        requires
            self.wf(),
        ensures
            self.state_view().valid(),
            self.state_view().settings() == self.config_view().state,
            self.causal_view().valid(),
            self.causal_view().settings() == self.config_view().causal,
    {
    }

    /// What a table promises to its users.
    pub proof fn lemma_wf(&self)
        requires
            self.wf(),
        ensures
            self.topic_view().wf(),
            self.recovery_view().ok(&self.topic_view()),
            self.recovery_view().name() == recovery_name(),
            self.topic_view().consumers()[recovery_name()].active,
            self.topic_view().config_view() == self.config_view().topic,
            receipts_ok(self.receipts()),
    {
    }

    /// The sizes of a change and of what is noted with it can be written.
    pub open spec fn storable(&self, c: ChangeData) -> bool {
        &&& c.code().len() <= u32::MAX
        &&& State::takes(self.config_view().state, c.primary_key, c.current->Some_0)
        &&& self.notable(c.author, c.sequence)
    }

    /// What is noted of an author with one more event can be written.
    pub open spec fn notable(&self, author: Seq<u8>, sequence: u64) -> bool {
        State::takes(
            self.config_view().causal,
            author,
            receipt::observed(self.received(author), sequence).code(),
        )
    }

    /// There is room to note one more event of an author.
    pub open spec fn note_room(&self, author: Seq<u8>, sequence: u64) -> bool {
        self.causal_view().room(author, receipt::observed(self.received(author), sequence).code())
    }

    /// There is room for a change in the topic, among the rows and with its author.
    pub open spec fn has_room(&self, c: ChangeData) -> bool {
        &&& self.topic_view().store().has_room(c.code().len() as int)
        &&& self.state_view().room(c.primary_key, c.current->Some_0)
        &&& self.note_room(c.author, c.sequence)
    }

    /// A record was appended to the topic.
    pub open spec fn appended(&self, to: &Self, record: Seq<u8>) -> bool {
        let d = to.topic_view().log().earliest() - self.topic_view().log().earliest();
        &&& 0 <= d
        &&& to.topic_view().log().next() == self.topic_view().log().next() + 1
        &&& to.topic_view().records() == self.topic_view().records().skip(d).push(record)
        &&& to.topic_view().consumers() == self.topic_view().consumers()
        &&& to.topic_view().store().offsets() == self.topic_view().store().offsets()
        &&& d > 0 ==> to.topic_view().log().earliest() <= self.recovery_view().committed()
        &&& to.recovery_view() == self.recovery_view()
    }

    /// How far a change got: it stands in the topic, among the rows, and is noted as received.
    pub open spec fn progress(&self, to: &Self, c: ChangeData, n: int) -> bool {
        &&& if n >= 1 {
            self.appended(to, c.code())
        } else {
            to.topic_view() == self.topic_view()
        }
        &&& if n >= 2 {
            traits::after_put(self.state_view(), to.state_view(), c.primary_key, c.current->Some_0)
        } else {
            to.rows() == self.rows() && (n == 0 ==> to.state_view() == self.state_view())
        }
        &&& if n >= 3 {
            traits::after_put(
                self.causal_view(),
                to.causal_view(),
                c.author,
                receipt::observed(self.received(c.author), c.sequence).code(),
            )
        } else {
            to.receipts() == self.receipts() && (n < 2 ==> to.causal_view() == self.causal_view())
        }
    }

    /// How far a change gets that does not find room everywhere.
    pub open spec fn halts_at(&self, c: ChangeData) -> int {
        if !self.topic_view().store().has_room(c.code().len() as int) {
            0
        } else if !self.state_view().room(c.primary_key, c.current->Some_0) {
            1
        } else {
            2
        }
    }

    /// What became of recording a change.
    pub open spec fn recorded(&self, to: &Self, c: ChangeData, r: Result<Change, StorageError>) -> bool {
        match r {
            Ok(done) => done@ == c && self.storable(c) && self.has_room(c) && self.progress(to, c, 3),
            Err(StorageError::InvalidInput) => !self.storable(c) && self.progress(to, c, 0),
            Err(e) => {
                &&& e == StorageError::StorageFull
                &&& self.storable(c)
                &&& !self.has_room(c)
                &&& self.progress(to, c, self.halts_at(c))
            },
        }
    }

    fn receipt(&self, author: &Vec<u8>) -> (r: ReceiptWindow)
        requires
            self.wf(),
        ensures
            r@ == self.received(author@),
            r@.wf(),
            r.missing@.len() <= u64::MAX,
    {
        let stored: Option<Vec<u8>> = self.causal.get(author);
        match stored {
            Some(b) => {
                proof {
                    assert(holds_window(b@));
                }
                match ReceiptWindow::decode(&b) {
                    Some(w) => {
                        proof {
                            assert(w.missing@.len() == w.missing.len());
                            lemma_window_in(b@, w@);
                        }
                        w
                    },
                    None => {
                        proof {
                            let w = window_in(b@);
                            assert(is_window(b@, w));
                            assert(w.code() != b@);
                        }
                        ReceiptWindow::default()
                    },
                }
            },
            None => {
                let r = ReceiptWindow::default();
                assert(r.missing@.len() == 0);
                r
            },
        }
    }

    /// Writes a change to the topic, then the row, then what has been received.
    fn record(&mut self, event: Event, previous: Option<Vec<u8>>, current: Vec<u8>, window: ReceiptWindow) -> (r: Result<
        Change,
        StorageError,
    >)
        requires
            old(self).wf(),
            event.sequence != 0,
            window@ == old(self).received(event.author@),
            window@.wf(),
        ensures
            final(self).wf(),
            final(self).config_view() == old(self).config_view(),
            old(self).recorded(final(self), change_of(event, event.sequence, change::opt_view(previous), current@), r),
            r matches Ok(c) ==> {
                &&& c.event == event
                &&& c.previous == previous
                &&& c.current == Some(current)
                &&& change::parse(final(self).topic_view().records().last()) == Some(c@)
                &&& forall|a: Seq<u8>, n: u64| #[trigger]
                    final(self).received(a).seen(n) == (old(self).received(a).seen(n) || a == event.author@ && n
                        == event.sequence)
            },
            // A row changes only once its change stands in the topic, even where there is no room to note the
            // event as received.
            final(self).rows() != old(self).rows() ==> {
                let told = change::parse(final(self).topic_view().records().last());
                &&& final(self).topic_view().log().next() == old(self).topic_view().log().next() + 1
                &&& final(self).topic_view().records().len() > 0
                &&& told is Some
                &&& told->Some_0.author == event.author@
                &&& told->Some_0.sequence == event.sequence
                &&& told->Some_0.primary_key == event.primary_key@
                &&& told->Some_0.current is Some
                &&& final(self).rows() == old(self).rows().insert(event.primary_key@, told->Some_0.current->Some_0)
            },
    {
        let ghost c = change_of(event, event.sequence, change::opt_view(previous), current@);
        let key: Vec<u8> = event.primary_key.duplicate();
        let author: Vec<u8> = event.author.duplicate();
        let row: Vec<u8> = current.duplicate();
        let mut window = window;
        let sequence: u64 = event.sequence;
        let ghost w0 = window@;
        let seen = window.observe(sequence);
        assert(seen is Ok);
        let note: Vec<u8> = window.encode();
        let change = Change { event, previous, current: Some(current) };
        assert(change@ == c);
        let bytes: Vec<u8> = change.encode();
        assert(bytes@.len() == bytes.len());
        if bytes.len() as u64 > u32::MAX as u64 || !self.state.accepts(&key, &row) || !self.causal.accepts(
            &author,
            &note,
        ) {
            return Err(StorageError::InvalidInput);
        }
        let ghost topic0 = self.topic;
        proof {
            self.topic.lemma_wf();
        }
        match self.topic.append(&bytes) {
            Ok(_) => {},
            Err(e) => {
                return Err(e);
            },
        }
        proof {
            self.topic.lemma_wf();
            reader::growth_keeps_readers(self.recovery.reader(), topic0.log(), self.topic.log());
        }
        let ghost mid = *self;
        match self.state.put(key, row) {
            Ok(_) => {},
            Err(e) => {
                assert(old(self).progress(self, c, 1));
                return Err(e);
            },
        }
        let ghost author_view = author@;
        let ghost noted = window@;
        match self.causal.put(author, note) {
            Ok(_) => {},
            Err(e) => {
                proof {
                    assert(old(self).progress(self, c, 2));
                    change::lemma_sized(c);
                    change::change_round_trip(c, Seq::empty());
                    assert(c.code() + Seq::<u8>::empty() =~= c.code());
                }
                return Err(e);
            },
        }
        proof {
            assert(window.missing@.len() == window.missing.len());
            lemma_noted(old(self).causal.map(), self.causal.map(), author_view, noted);
            change::lemma_sized(c);
            change::change_round_trip(c, Seq::empty());
            assert(c.code() + Seq::<u8>::empty() =~= c.code());
        }
        Ok(change)
    }

    /// Numbers an event of this table and applies it. `evaluate` says what the event makes of
    /// its row: the row after it, or `None` where it changes nothing. An event that changes
    /// nothing takes no number.
    pub fn insert<F: FnOnce(&Event, Option<Vec<u8>>) -> Result<Option<Vec<u8>>, StorageError>>(
        &mut self,
        event: Event,
        evaluate: F,
    ) -> (r: Result<InsertOutcome, StorageError>)
        requires
            old(self).wf(),
            forall|e: &Event, p: Option<Vec<u8>>| #[trigger] call_requires(evaluate, (e, p)),
        ensures
            final(self).wf(),
            final(self).config_view() == old(self).config_view(),
            ({
                let w = old(self).received(event.author@);
                if w.max_seen == u64::MAX {
                    r == Err::<InsertOutcome, StorageError>(StorageError::Exhausted) && *final(self) == *old(self)
                } else {
                    let sequence = (w.max_seen + 1) as u64;
                    exists|e: Event, p: Option<Vec<u8>>, out: Result<Option<Vec<u8>>, StorageError>|
                        {
                            &&& #[trigger] call_ensures(evaluate, (&e, p), out)
                            &&& e == (Event { sequence, ..event })
                            &&& maps::holds(old(self).rows(), event.primary_key@, p)
                            &&& old(self).inserted(final(self), e, sequence, out, r)
                        }
                }
            }),
            // What the event makes of its row decides: it is shown the event with its number, and the
            // row as it stands.
            old(self).received(event.author@).max_seen < u64::MAX ==> exists|
                e: Event,
                p: Option<Vec<u8>>,
                out: Result<Option<Vec<u8>>, StorageError>,
            | #[trigger] call_ensures(evaluate, (&e, p), out) && {
                &&& e.author@ == event.author@
                &&& e.sequence == old(self).received(event.author@).max_seen + 1
                &&& e.primary_key@ == event.primary_key@
                &&& e.operations@ == event.operations@
                &&& match p {
                    Some(v) => old(self).rows().contains_key(event.primary_key@)
                        && old(self).rows()[event.primary_key@] == v@,
                    None => !old(self).rows().contains_key(event.primary_key@),
                }
                &&& match out {
                    Err(e) => r == Err::<InsertOutcome, StorageError>(e) && *final(self) == *old(self),
                    Ok(None) => r == Ok::<InsertOutcome, StorageError>(InsertOutcome::Ignored) && *final(self) == *old(self),
                    Ok(Some(v)) => r matches Ok(o) ==> o matches InsertOutcome::Applied(c)
                        && final(self).rows()[event.primary_key@] == v@,
                }
            },
            // What is handed out: the event as it came, and the row before and after it.
            r matches Ok(InsertOutcome::Applied(c)) ==> {
                &&& c.event.author@ == event.author@
                &&& c.event.sequence == old(self).received(event.author@).max_seen + 1
                &&& c.event.primary_key@ == event.primary_key@
                &&& c.event.operations@ == event.operations@
                &&& match c.previous {
                    Some(v) => old(self).rows().contains_key(event.primary_key@) && old(self).rows()[event.primary_key@]
                        == v@,
                    None => !old(self).rows().contains_key(event.primary_key@),
                }
                &&& c.current matches Some(v) && final(self).rows() == old(self).rows().insert(event.primary_key@, v@)
            },
            // What readers of the topic are told: the same.
            r matches Ok(InsertOutcome::Applied(c)) ==> {
                let told = change::parse(final(self).topic_view().records().last());
                &&& final(self).topic_view().records().len() > 0
                &&& final(self).topic_view().log().next() == old(self).topic_view().log().next() + 1
                &&& told is Some
                &&& told->Some_0.author == event.author@
                &&& told->Some_0.sequence == old(self).received(event.author@).max_seen + 1
                &&& told->Some_0.primary_key == event.primary_key@
                &&& told->Some_0.operations == event.operations@
                &&& match told->Some_0.previous {
                    Some(v) => old(self).rows().contains_key(event.primary_key@) && old(self).rows()[event.primary_key@]
                        == v,
                    None => !old(self).rows().contains_key(event.primary_key@),
                }
                &&& told->Some_0.current == Some(final(self).rows()[event.primary_key@])
            },
            // What is noted as received.
            r matches Ok(InsertOutcome::Applied(c)) ==> forall|a: Seq<u8>, n: u64| #[trigger]
                final(self).received(a).seen(n) == (old(self).received(a).seen(n) || a == event.author@
                    && n == old(self).received(event.author@).max_seen + 1),
            r is Err ==> final(self).receipts() == old(self).receipts(),
            // A row changes only once its change stands in the topic, even where there is no room to note the
            // event as received.
            final(self).rows() != old(self).rows() ==> {
                let told = change::parse(final(self).topic_view().records().last());
                &&& final(self).topic_view().log().next() == old(self).topic_view().log().next() + 1
                &&& final(self).topic_view().records().len() > 0
                &&& told is Some
                &&& told->Some_0.author == event.author@
                &&& told->Some_0.sequence == old(self).received(event.author@).max_seen + 1
                &&& told->Some_0.primary_key == event.primary_key@
                &&& told->Some_0.current is Some
                &&& final(self).rows() == old(self).rows().insert(event.primary_key@, told->Some_0.current->Some_0)
            },
            r matches Ok(InsertOutcome::Ignored) ==> *final(self) == *old(self),
    {
        let window: ReceiptWindow = self.receipt(&event.author);
        if window.max_seen == u64::MAX {
            return Err(StorageError::Exhausted);
        }
        let mut event = event;
        event.sequence = window.max_seen + 1;
        let previous: Option<Vec<u8>> = self.state.get(&event.primary_key);
        let shown: Option<Vec<u8>> = duplicate_opt(&previous);
        let ghost seen = shown;
        let ghost e0 = event;
        let out = evaluate(&event, shown);
        assert(call_ensures(evaluate, (&e0, seen), out));
        match out {
            Err(e) => Err(e),
            Ok(None) => Ok(InsertOutcome::Ignored),
            Ok(Some(current)) => match self.record(event, previous, current, window) {
                Ok(c) => Ok(InsertOutcome::Applied(c)),
                Err(e) => Err(e),
            },
        }
    }

    /// What became of an event with the given number, where `out` is what it makes of its row.
    pub open spec fn inserted(
        &self,
        to: &Self,
        event: Event,
        sequence: u64,
        out: Result<Option<Vec<u8>>, StorageError>,
        r: Result<InsertOutcome, StorageError>,
    ) -> bool {
        match out {
            Err(e) => *to == *self && r == Err::<InsertOutcome, StorageError>(e),
            Ok(None) => *to == *self && r == Ok::<InsertOutcome, StorageError>(InsertOutcome::Ignored),
            Ok(Some(current)) => {
                let c = change_of(event, sequence, value_of(self.rows(), event.primary_key@), current@);
                match r {
                    Ok(InsertOutcome::Applied(done)) => self.recorded(to, c, Ok(done)),
                    Ok(InsertOutcome::Ignored) => false,
                    Err(e) => self.recorded(to, c, Err(e)),
                }
            },
        }
    }

    /// Applies an event with its author's number. An event that was received before is ignored
    /// without a look at its row. One that changes nothing is noted as received all the same.
    pub fn observe<F: FnOnce(&Event, Option<Vec<u8>>) -> Result<Option<Vec<u8>>, StorageError>>(
        &mut self,
        event: Event,
        evaluate: F,
    ) -> (r: Result<InsertOutcome, StorageError>)
        requires
            old(self).wf(),
            forall|e: &Event, p: Option<Vec<u8>>| #[trigger] call_requires(evaluate, (e, p)),
        ensures
            final(self).wf(),
            final(self).config_view() == old(self).config_view(),
            if event.sequence == 0 {
                r == Err::<InsertOutcome, StorageError>(StorageError::InvalidData) && *final(self) == *old(self)
            } else if old(self).received(event.author@).seen(event.sequence) {
                r == Ok::<InsertOutcome, StorageError>(InsertOutcome::Ignored) && *final(self) == *old(self)
            } else {
                exists|p: Option<Vec<u8>>, out: Result<Option<Vec<u8>>, StorageError>|
                    {
                        &&& #[trigger] call_ensures(evaluate, (&event, p), out)
                        &&& maps::holds(old(self).rows(), event.primary_key@, p)
                        &&& old(self).observed(final(self), event, out, r)
                    }
            },
            // What the event makes of its row decides: it is shown the event, and the row as it stands.
            event.sequence != 0 && !old(self).received(event.author@).seen(event.sequence) ==> exists|
                p: Option<Vec<u8>>,
                out: Result<Option<Vec<u8>>, StorageError>,
            | #[trigger] call_ensures(evaluate, (&event, p), out) && {
                &&& match p {
                    Some(v) => old(self).rows().contains_key(event.primary_key@)
                        && old(self).rows()[event.primary_key@] == v@,
                    None => !old(self).rows().contains_key(event.primary_key@),
                }
                &&& match out {
                    Err(e) => r == Err::<InsertOutcome, StorageError>(e) && *final(self) == *old(self),
                    Ok(None) => !(r matches Ok(InsertOutcome::Applied(c))) && final(self).rows() == old(self).rows(),
                    Ok(Some(v)) => r matches Ok(o) ==> o matches InsertOutcome::Applied(c)
                        && final(self).rows()[event.primary_key@] == v@,
                }
            },
            // What is handed out: the event as it came, and the row before and after it.
            r matches Ok(InsertOutcome::Applied(c)) ==> {
                &&& c.event.author@ == event.author@
                &&& c.event.sequence == event.sequence
                &&& c.event.primary_key@ == event.primary_key@
                &&& c.event.operations@ == event.operations@
                &&& match c.previous {
                    Some(v) => old(self).rows().contains_key(event.primary_key@) && old(self).rows()[event.primary_key@]
                        == v@,
                    None => !old(self).rows().contains_key(event.primary_key@),
                }
                &&& c.current matches Some(v) && final(self).rows() == old(self).rows().insert(event.primary_key@, v@)
            },
            // What readers of the topic are told: the same.
            r matches Ok(InsertOutcome::Applied(c)) ==> {
                let told = change::parse(final(self).topic_view().records().last());
                &&& final(self).topic_view().records().len() > 0
                &&& final(self).topic_view().log().next() == old(self).topic_view().log().next() + 1
                &&& told is Some
                &&& told->Some_0.author == event.author@
                &&& told->Some_0.sequence == event.sequence
                &&& told->Some_0.primary_key == event.primary_key@
                &&& told->Some_0.operations == event.operations@
                &&& match told->Some_0.previous {
                    Some(v) => old(self).rows().contains_key(event.primary_key@) && old(self).rows()[event.primary_key@]
                        == v,
                    None => !old(self).rows().contains_key(event.primary_key@),
                }
                &&& told->Some_0.current == Some(final(self).rows()[event.primary_key@])
            },
            // What is noted as received.
            r matches Ok(InsertOutcome::Applied(c)) ==> forall|a: Seq<u8>, n: u64| #[trigger]
                final(self).received(a).seen(n) == (old(self).received(a).seen(n) || a == event.author@
                    && n == event.sequence),
            r is Err ==> final(self).receipts() == old(self).receipts(),
            // A row changes only once its change stands in the topic, even where there is no room to note the
            // event as received.
            final(self).rows() != old(self).rows() ==> {
                let told = change::parse(final(self).topic_view().records().last());
                &&& final(self).topic_view().log().next() == old(self).topic_view().log().next() + 1
                &&& final(self).topic_view().records().len() > 0
                &&& told is Some
                &&& told->Some_0.author == event.author@
                &&& told->Some_0.sequence == event.sequence
                &&& told->Some_0.primary_key == event.primary_key@
                &&& told->Some_0.current is Some
                &&& final(self).rows() == old(self).rows().insert(event.primary_key@, told->Some_0.current->Some_0)
            },
            // One that was not received before is now, whether or not it changed its row.
            r matches Ok(InsertOutcome::Ignored) ==> {
                &&& final(self).state_view() == old(self).state_view()
                &&& final(self).topic_view() == old(self).topic_view()
                &&& forall|a: Seq<u8>, n: u64| #[trigger]
                    final(self).received(a).seen(n) == (old(self).received(a).seen(n) || a == event.author@ && n
                        == event.sequence)
            },
    {
        if event.sequence == 0 {
            return Err(StorageError::InvalidData);
        }
        let window: ReceiptWindow = self.receipt(&event.author);
        if window.contains(event.sequence) {
            return Ok(InsertOutcome::Ignored);
        }
        let previous: Option<Vec<u8>> = self.state.get(&event.primary_key);
        let shown: Option<Vec<u8>> = duplicate_opt(&previous);
        let ghost seen = shown;
        let out = evaluate(&event, shown);
        assert(call_ensures(evaluate, (&event, seen), out));
        match out {
            Err(e) => Err(e),
            Ok(None) => {
                let mut window = window;
                let done = window.observe(event.sequence);
                assert(done is Ok);
                let note: Vec<u8> = window.encode();
                let author: Vec<u8> = event.author.duplicate();
                if !self.causal.accepts(&author, &note) {
                    return Err(StorageError::InvalidInput);
                }
                let ghost author_view = author@;
                match self.causal.put(author, note) {
                    Ok(_) => {
                        proof {
                            assert(window.missing@.len() == window.missing.len());
                            lemma_noted(old(self).causal.map(), self.causal.map(), author_view, window@);
                        }
                        Ok(InsertOutcome::Ignored)
                    },
                    Err(e) => Err(e),
                }
            },
            Ok(Some(current)) => match self.record(event, previous, current, window) {
                Ok(c) => Ok(InsertOutcome::Applied(c)),
                Err(e) => Err(e),
            },
        }
    }

    /// What became of an event that was not received before, where `out` is what it makes of its
    /// row.
    pub open spec fn observed(
        &self,
        to: &Self,
        event: Event,
        out: Result<Option<Vec<u8>>, StorageError>,
        r: Result<InsertOutcome, StorageError>,
    ) -> bool {
        match out {
            Err(e) => *to == *self && r == Err::<InsertOutcome, StorageError>(e),
            Ok(None) => {
                &&& to.state_view() == self.state_view()
                &&& to.topic_view() == self.topic_view()
                &&& to.recovery_view() == self.recovery_view()
                &&& match r {
                    Ok(InsertOutcome::Ignored) => {
                        &&& self.notable(event.author@, event.sequence)
                        &&& self.note_room(event.author@, event.sequence)
                        &&& traits::after_put(
                            self.causal_view(),
                            to.causal_view(),
                            event.author@,
                            receipt::observed(self.received(event.author@), event.sequence).code(),
                        )
                    },
                    Ok(InsertOutcome::Applied(_)) => false,
                    Err(StorageError::InvalidInput) => !self.notable(event.author@, event.sequence) && to.receipts()
                        == self.receipts(),
                    Err(e) => e == StorageError::StorageFull && !self.note_room(event.author@, event.sequence)
                        && to.receipts() == self.receipts(),
                }
            },
            Ok(Some(_)) => self.inserted(to, event, event.sequence, out, r),
        }
    }

    /// Whether an event has been received.
    pub fn contains_event(&self, author: &Vec<u8>, sequence: u64) -> (r: bool)
        requires
            self.wf(),
        ensures
            r == self.received(author@).seen(sequence),
    {
        let window: ReceiptWindow = self.receipt(author);
        window.contains(sequence)
    }

    /// What has been received from each author.
    pub fn receipt_summaries(&self) -> (r: Vec<(Vec<u8>, ReceiptWindow)>)
        requires
            self.wf(),
        ensures
            forall|i: int, j: int| 0 <= i < j < r@.len() ==> (#[trigger] r@[i]).0@ != (#[trigger] r@[j]).0@,
            forall|i: int|
                0 <= i < r@.len() ==> self.receipts().contains_key((#[trigger] r@[i]).0@) && r@[i].1@ == self.received(
                    r@[i].0@,
                ),
            forall|a: Seq<u8>| #[trigger]
                self.receipts().contains_key(a) ==> exists|i: int| 0 <= i < r@.len() && (#[trigger] r@[i]).0@ == a,
    {
        let keys: Vec<Vec<u8>> = self.causal.keys();
        let mut r: Vec<(Vec<u8>, ReceiptWindow)> = Vec::new();
        let mut i: usize = 0;
        while i < keys.len()
            invariant
                i <= keys@.len(),
                self.wf(),
                r@.len() == i,
                maps::lists_keys(self.receipts(), keys@),
                forall|j: int| 0 <= j < i ==> (#[trigger] r@[j]).0@ == keys@[j]@,
                forall|j: int| 0 <= j < i ==> (#[trigger] r@[j]).1@ == self.received(r@[j].0@),
            decreases keys.len() - i,
        {
            let w: ReceiptWindow = self.receipt(&keys[i]);
            r.push((keys[i].duplicate(), w));
            i = i + 1;
        }
        proof {
            assert forall|a: int, b: int| 0 <= a < b < r@.len() implies (#[trigger] r@[a]).0@ != (#[trigger] r@[b]).0@ by {
                assert(keys@[a]@ != keys@[b]@);
            }
            assert forall|a: int| 0 <= a < r@.len() implies self.receipts().contains_key((#[trigger] r@[a]).0@) by {
                assert(self.receipts().contains_key(keys@[a]@));
            }
            assert forall|a: Seq<u8>| #[trigger] self.receipts().contains_key(a) implies exists|j: int|
                0 <= j < r@.len() && (#[trigger] r@[j]).0@ == a by {
                assert(maps::among(keys@, keys@.len() as int, a));
                let j = choose|j: int| 0 <= j < keys@.len() && #[trigger] keys@[j]@ == a;
                assert(r@[j].0@ == a);
            }
        }
        r
    }
}

impl Table {
    /// A table without rows.
    pub fn create(config: TableConfig) -> (r: Result<Table, StorageError>)
        ensures
            match r {
                Ok(t) => {
                    &&& Table::feasible(config)
                    &&& t.wf()
                    &&& t.config_view() == config
                    &&& t.rows() == Map::<Seq<u8>, Seq<u8>>::empty()
                    &&& t.receipts() == Map::<Seq<u8>, Seq<u8>>::empty()
                    &&& t.state_view().fresh()
                    &&& t.causal_view().fresh()
                    &&& t.topic_view().store().offset_room(recovery_name())
                    &&& t.topic_view().records() == Seq::<Seq<u8>>::empty()
                    &&& t.topic_view().log().next() == 0
                    &&& t.topic_view().stats_view().retained_bytes == segment::HEADER_SIZE
                    &&& t.recovery_view().committed() == 0
                },
                Err(e) => !Table::feasible(config) && e == StorageError::StorageFull,
            },
    {
        let state: State = match State::create(config.state) {
            Ok(s) => s,
            Err(e) => {
                return Err(e);
            },
        };
        let causal: State = match State::create(config.causal) {
            Ok(s) => s,
            Err(e) => {
                return Err(e);
            },
        };
        let mut topic: Topic = match Topic::create(config.topic) {
            Ok(t) => t,
            Err(e) => {
                return Err(e);
            },
        };
        let name: Vec<u8> = recovery_name_bytes();
        proof {
            assert(log::encode_all(Seq::<log::Rec>::empty()).len() == 0);
        }
        let recovery: TopicConsumer = match topic.consumer(&name) {
            Ok(c) => c,
            Err(e) => {
                assert(false);
                return Err(e);
            },
        };
        Ok(Table { config, state, causal, topic, recovery })
    }

    /// The settings can be met.
    pub open spec fn feasible(config: TableConfig) -> bool {
        &&& State::feasible(config.state)
        &&& State::feasible(config.causal)
        &&& config.topic.offsets.initial_capacity <= log::MAX_LOG
    }

    /// The records that a replay goes through: those from where the rows are known to be written.
    pub open spec fn outstanding(&self) -> Seq<Seq<u8>> {
        replay::from_offset(self.topic_view().log(), self.recovery_view().reader().offset())
    }

    /// There is no room to store where the recovery stands.
    pub open spec fn offset_refused(&self) -> bool {
        !(self.config_view().state is InMemory) && !self.topic_view().store().offset_room(recovery_name())
    }

    /// Applies the changes of the topic that the rows may not have yet, and notes that they have
    /// them.
    fn replay_recovery(&mut self) -> (r: Result<(), StorageError>)
        requires
            old(self).wf(),
            old(self).recovery.reader().stands_in() is None,
        ensures
            final(self).wf(),
            final(self).config_view() == old(self).config_view(),
            final(self).causal_view() == old(self).causal_view(),
            final(self).topic_view().log().same(old(self).topic_view().log()),
            others_stay(old(self).topic_view().consumers(), final(self).topic_view().consumers()),
            match r {
                Ok(_) => {
                    &&& change::all_parse(old(self).outstanding())
                    &&& final(self).rows() == change::replayed(old(self).rows(), old(self).outstanding())
                    &&& replay::applied_all(old(self).state_view(), final(self).state_view(), old(self).outstanding())
                    &&& old(self).config_view().state is InMemory || final(self).recovery_view().committed()
                        == final(self).topic_view().log().next()
                    &&& old(self).config_view().state is InMemory ==> final(self).recovery_view().committed() == old(
                        self,
                    ).recovery_view().committed()
                },
                Err(e) => {
                    ||| exists|n: int| #[trigger]
                        replay::stopped(old(self).state_view(), old(self).outstanding(), n, e)
                            && final(self).rows() == change::replayed(old(self).rows(), old(self).outstanding().take(n))
                    ||| {
                        &&& e == StorageError::StorageFull
                        &&& old(self).offset_refused()
                        &&& change::all_parse(old(self).outstanding())
                        &&& final(self).rows() == change::replayed(old(self).rows(), old(self).outstanding())
                    }
                },
            },
    {
        let ghost todo = self.outstanding();
        let ghost log0 = self.topic.log();
        let ghost o0 = self.recovery.reader().offset();
        let ghost start = if o0 < log0.earliest() {
            log0.earliest() as int
        } else {
            o0 as int
        };
        let ghost mut n: int = 0;
        proof {
            self.topic.lemma_wf();
            assert(todo.take(0) =~= Seq::empty());
            assert(log0.records().skip(0) =~= log0.records());
            lemma_same_log(log0);
        }
        let mut done: bool = false;
        while !done
            invariant
                self.wf(),
                self.config == old(self).config,
                self.causal == old(self).causal,
                todo == old(self).outstanding(),
                log0 == old(self).topic.log(),
                log0.wf(),
                self.topic.log().same(log0),
                self.topic.consumers() == old(self).topic.consumers(),
                o0 == old(self).recovery.reader().offset(),
                start == (if o0 < log0.earliest() {
                    log0.earliest() as int
                } else {
                    o0 as int
                }),
                todo == (if start - log0.earliest() <= log0.records().len() {
                    log0.records().skip(start - log0.earliest())
                } else {
                    Seq::empty()
                }),
                self.topic.store().offsets() == old(self).topic.store().offsets(),
                self.state.settings() == self.config.state,
                log0.records().len() == log0.next() - log0.earliest(),
                0 <= n <= todo.len(),
                n == 0 && !done ==> self.recovery.reader().offset() == o0 && self.recovery.reader().stands_in() is None,
                n > 0 && !done ==> self.recovery.reader().offset() == start + n,
                forall|i: int| 0 <= i < n ==> change::parse(#[trigger] todo[i]) is Some,
                self.state.map() == change::replayed(old(self).state.map(), todo.take(n)),
                replay::applied_all(old(self).state, self.state, todo.take(n)),
                old(self).state.settings() == self.config.state,
                done ==> n == todo.len(),
            decreases todo.len() - n, (if done {
                0int
            } else {
                1int
            }),
        {
            let ghost log1 = self.topic.log();
            proof {
                self.topic.lemma_wf();
                if n > 0 {
                    reader::reads_its_offset(self.recovery.reader(), log1);
                }
            }
            let record: Option<Vec<u8>> = self.recovery.next(&mut self.topic);
            match record {
                None => {
                    done = true;
                },
                Some(bytes) => {
                    proof {
                        assert(n < todo.len());
                        assert(bytes@ == todo[n]);
                        assert(todo.take(n + 1).drop_last() =~= todo.take(n));
                    }
                    let ghost state1 = self.state;
                    match replay::apply(&mut self.state, &bytes) {
                        Ok(_) => {},
                        Err(e) => {
                            proof {
                                assert(replay::applied_all(old(self).state, state1, todo.take(n)));
                                assert(replay::stopped(old(self).state, todo, n, e));
                            }
                            return Err(e);
                        },
                    }
                    proof {
                        assert(replay::applied(state1, self.state, todo.take(n + 1).last()));
                        n = n + 1;
                    }
                },
            }
        }
        assert(todo.take(n) =~= todo);
        self.commit_recovery()
    }

    /// Notes that the rows have all changes, unless they live in memory alone.
    fn commit_recovery(&mut self) -> (r: Result<(), StorageError>)
        requires
            old(self).wf(),
        ensures
            final(self).wf(),
            final(self).config_view() == old(self).config_view(),
            final(self).causal_view() == old(self).causal_view(),
            final(self).state_view() == old(self).state_view(),
            final(self).topic_view().log().same(old(self).topic_view().log()),
            others_stay(old(self).topic_view().consumers(), final(self).topic_view().consumers()),
            match r {
                Ok(_) => old(self).config_view().state is InMemory || final(self).recovery_view().committed()
                    == final(self).topic_view().log().next(),
                Err(e) => e == StorageError::StorageFull && final(self).recovery_view().committed() == old(
                    self,
                ).recovery_view().committed(),
            },
            r is Err <==> old(self).offset_refused(),
            // Rows that live in memory alone will need all changes again.
            old(self).config_view().state is InMemory ==> *final(self) == *old(self),
    {
        proof {
            self.topic.lemma_wf();
            lemma_same_log(self.topic.log());
        }
        match self.state {
            State::InMemory { .. } => {
                return Ok(());
            },
            _ => {},
        }
        let _ = self.recovery.seek(SeekTarget::Latest, &mut self.topic);
        self.recovery.commit(&mut self.topic)
    }

    /// The parts can be opened, and the store has room for the changes that its rows may not have
    /// yet, and the topic for the offset of the recovery.
    pub open spec fn opens(
        state_image: Seq<u8>,
        causal_image: Seq<u8>,
        files: Seq<(u64, Vec<u8>)>,
        offsets: Seq<u8>,
        config: TableConfig,
    ) -> bool {
        &&& State::opens(config.state, state_image)
        &&& State::opens(config.causal, causal_image)
        &&& forall|m: Map<Seq<u8>, Seq<u8>>|
            #![trigger receipts_ok(m)]
            State::keeps(config.causal, causal_image, m) ==> receipts_ok(m)
        &&& forall|e: StorageError| !#[trigger] Topic::open_error(files, offsets, config.topic, e)
        &&& forall|topic: Topic| #[trigger]
            Topic::opened_from(files, offsets, config.topic, topic) ==> !cramped(topic)
        &&& forall|topic: Topic, state: State| #[trigger]
            Topic::opened_from(files, offsets, config.topic, topic) && #[trigger] State::opened(
                config.state,
                state_image,
                state,
            ) ==> replay::goes_through(state, todo_of(topic))
    }

    /// Opens a table from what its parts were kept as, and applies the changes that its rows may
    /// not have yet.
    pub fn open(
        state_image: Vec<u8>,
        causal_image: Vec<u8>,
        files: Vec<(u64, Vec<u8>)>,
        offsets: Vec<u8>,
        config: TableConfig,
    ) -> (r: Result<Table, StorageError>)
        requires
            files@.len() > 0,
            State::sound_image(config.state, state_image@),
            State::sound_image(config.causal, causal_image@),
        ensures
            match r {
                Ok(t) => {
                    &&& t.wf()
                    &&& t.config_view() == config
                    &&& State::opens(config.state, state_image@)
                    &&& State::opens(config.causal, causal_image@)
                    &&& State::keeps(config.causal, causal_image@, t.receipts())
                    &&& exists|topic: Topic, state: State|
                        {
                            &&& Topic::opened_from(files@, offsets@, config.topic, topic)
                            &&& State::opened(config.state, state_image@, state)
                            &&& change::all_parse(todo_of(topic))
                            &&& t.rows() == change::replayed(state.map(), todo_of(topic))
                            &&& #[trigger] replay::applied_all(state, t.state_view(), todo_of(topic))
                            &&& t.topic_view().log().same(topic.log())
                            &&& others_stay(topic.consumers(), t.topic_view().consumers())
                            &&& config.state is InMemory && topic.consumers().contains_key(recovery_name())
                                ==> t.recovery_view().committed() == topic.consumers()[recovery_name()].committed
                        }
                    &&& config.state is InMemory || t.recovery_view().committed() == t.topic_view().log().next()
                },
                Err(e) => {
                    ||| !State::opens(config.state, state_image@) && e == traits::unopened(
                        State::oversized(config.state, state_image@),
                    )
                    ||| !State::opens(config.causal, causal_image@) && e == traits::unopened(
                        State::oversized(config.causal, causal_image@),
                    )
                    ||| e == StorageError::InvalidData && exists|m: Map<Seq<u8>, Seq<u8>>|
                        #![trigger receipts_ok(m)]
                        State::keeps(config.causal, causal_image@, m) && !receipts_ok(m)
                    ||| Topic::open_error(files@, offsets@, config.topic, e)
                    ||| e == StorageError::StorageFull && exists|topic: Topic| #[trigger]
                        Topic::opened_from(files@, offsets@, config.topic, topic) && cramped(topic)
                    ||| exists|topic: Topic, state: State, n: int|
                        {
                            &&& Topic::opened_from(files@, offsets@, config.topic, topic)
                            &&& State::opened(config.state, state_image@, state)
                            &&& #[trigger] replay::stopped(state, todo_of(topic), n, e)
                        }
                },
            },
            Table::opens(state_image@, causal_image@, files@, offsets@, config) ==> r is Ok,
    {
        let state: State = match State::open(state_image, config.state) {
            Ok(s) => s,
            Err(e) => {
                return Err(e);
            },
        };
        let causal: State = match State::open(causal_image, config.causal) {
            Ok(s) => s,
            Err(e) => {
                return Err(e);
            },
        };
        if !receipts_in_order(&causal) {
            assert(!receipts_ok(causal.map()));
            return Err(StorageError::InvalidData);
        }
        let mut topic: Topic = match Topic::open(files, offsets, config.topic) {
            Ok(t) => t,
            Err(e) => {
                return Err(e);
            },
        };
        let ghost opened = topic;
        let name: Vec<u8> = recovery_name_bytes();
        let recovery: TopicConsumer = match topic.consumer(&name) {
            Ok(c) => c,
            Err(e) => {
                assert(cramped(opened));
                return Err(e);
            },
        };
        let mut table = Table { config, state, causal, topic, recovery };
        let ghost before = table;
        assert(before.outstanding() == todo_of(opened));
        match table.replay_recovery() {
            Ok(_) => {
                assert(table.rows() == change::replayed(before.rows(), todo_of(opened)));
                Ok(table)
            },
            Err(e) => {
                proof {
                    if exists|n: int| #[trigger] replay::stopped(before.state, todo_of(opened), n, e) {
                        let n = choose|n: int| #[trigger] replay::stopped(before.state, todo_of(opened), n, e);
                        assert(replay::stopped(before.state, todo_of(opened), n, e));
                    } else {
                        assert(cramped(opened));
                    }
                }
                Err(e)
            },
        }
    }

    /// Notes that the rows have all changes. Called when the parts are written out.
    pub fn persist(&mut self) -> (r: Result<(), StorageError>)
        requires
            old(self).wf(),
        ensures
            final(self).wf(),
            final(self).config_view() == old(self).config_view(),
            final(self).causal_view() == old(self).causal_view(),
            final(self).state_view() == old(self).state_view(),
            final(self).topic_view().log().same(old(self).topic_view().log()),
            others_stay(old(self).topic_view().consumers(), final(self).topic_view().consumers()),
            match r {
                Ok(_) => old(self).config_view().state is InMemory || final(self).recovery_view().committed()
                    == final(self).topic_view().log().next(),
                Err(e) => e == StorageError::StorageFull && final(self).recovery_view().committed() == old(
                    self,
                ).recovery_view().committed(),
            },
            r is Err <==> old(self).offset_refused(),
            // Rows that live in memory alone will need all changes again.
            old(self).config_view().state is InMemory ==> *final(self) == *old(self),
    {
        self.commit_recovery()
    }

    /// Gives up space among the rows and the receipts. The topic stays: how far it is needed
    /// cannot be told from its consumers here.
    pub fn compact(&mut self) -> (r: Result<(), StorageError>)
        requires
            old(self).wf(),
        ensures
            final(self).wf(),
            final(self).config_view() == old(self).config_view(),
            final(self).rows() == old(self).rows(),
            final(self).receipts() == old(self).receipts(),
            final(self).topic_view() == old(self).topic_view(),
            final(self).recovery_view() == old(self).recovery_view(),
            old(self).state_view().compactable() && old(self).causal_view().compactable() ==> r is Ok,
            match r {
                Ok(_) => {
                    &&& old(self).state_view().compacted(&final(self).state_view())
                    &&& old(self).causal_view().compacted(&final(self).causal_view())
                },
                Err(e) => {
                    &&& e == StorageError::StorageFull
                    &&& final(self).causal_view() == old(self).causal_view()
                    &&& final(self).state_view() == old(self).state_view() || old(self).state_view().compacted(
                        &final(self).state_view(),
                    )
                },
            },
    {
        match self.state.compact() {
            Ok(_) => self.causal.compact(),
            Err(e) => Err(e),
        }
    }

    /// A reader of the changes, at the first one that is kept.
    pub fn reader(&self) -> (r: TopicReader)
        requires
            self.wf(),
        ensures
            r.offset() == self.topic_view().log().earliest(),
            r.stands_in() is None,
            r.ok(&self.topic_view().log()),
    {
        self.topic.reader()
    }

    /// The next change of a reader and its offset.
    pub fn read(&mut self, reader: &mut TopicReader) -> (r: Option<(u64, Vec<u8>)>)
        requires
            old(self).wf(),
            old(reader).ok(&old(self).topic_view().log()),
        ensures
            final(self).wf(),
            final(self).config_view() == old(self).config_view(),
            final(self).state_view() == old(self).state_view(),
            final(self).causal_view() == old(self).causal_view(),
            final(self).recovery_view() == old(self).recovery_view(),
            final(self).topic_view().read_only(&old(self).topic_view()),
            final(reader).ok(&final(self).topic_view().log()),
            match r {
                Some((o, v)) => old(reader).finds(&old(self).topic_view().log()) == Some((o as int, v@))
                    && final(reader).offset() == o + 1,
                None => old(reader).finds(&old(self).topic_view().log()) is None && final(reader).offset() == old(
                    self,
                ).topic_view().log().next(),
            },
            // The record at the reader's offset, where it is retained; and for a reader in no segment whose
            // record is gone, the first that is.
            old(reader).offset() >= old(self).topic_view().log().earliest() ==> match r {
                Some((o, v)) => o == old(reader).offset() && o < old(self).topic_view().log().next()
                    && v@ == old(self).topic_view().records()[o - old(self).topic_view().log().earliest()]
                    && final(reader).offset() == o + 1,
                None => old(reader).offset() >= old(self).topic_view().log().next(),
            },
            old(reader).offset() < old(self).topic_view().log().earliest() && old(reader).stands_in() is None ==> match r {
                Some((o, v)) => o == old(self).topic_view().log().earliest()
                    && o < old(self).topic_view().log().next() && v@ == old(self).topic_view().records()[0]
                    && final(reader).offset() == o + 1,
                None => old(self).topic_view().log().earliest() == old(self).topic_view().log().next(),
            },
    {
        let ghost topic0 = self.topic;
        proof {
            self.topic.lemma_wf();
        }
        let r = self.topic.read(reader);
        proof {
            self.topic.lemma_wf();
            reader::growth_keeps_readers(self.recovery.reader(), topic0.log(), self.topic.log());
        }
        r
    }

    /// Opens a named consumer of the changes. The table's own name is taken.
    pub fn consumer(&mut self, name: &Vec<u8>) -> (r: Result<TopicConsumer, StorageError>)
        requires
            old(self).wf(),
            name@.len() <= store::MAX_NAME,
        ensures
            final(self).wf(),
            final(self).config_view() == old(self).config_view(),
            final(self).state_view() == old(self).state_view(),
            final(self).causal_view() == old(self).causal_view(),
            final(self).recovery_view() == old(self).recovery_view(),
            final(self).topic_view().log() == old(self).topic_view().log(),
            match r {
                Ok(c) => {
                    let known = old(self).topic_view().consumers().contains_key(name@);
                    let at = if known {
                        old(self).topic_view().consumers()[name@].committed
                    } else {
                        old(self).topic_view().log().next()
                    };
                    &&& known ==> !old(self).topic_view().consumers()[name@].active
                    &&& !known ==> old(self).topic_view().store().offset_room(name@)
                    &&& if known {
                        final(self).topic_view().store().offsets() == old(self).topic_view().store().offsets()
                    } else {
                        store::offset_stored(
                            old(self).topic_view().store().offsets(),
                            final(self).topic_view().store().offsets(),
                            name@,
                            old(self).topic_view().log().next(),
                        )
                    }
                    &&& name@ != recovery_name()
                    &&& final(self).topic_view().consumers() == old(self).topic_view().consumers().insert(
                        name@,
                        (Standing { committed: at, volatile: at, active: true }),
                    )
                    &&& c.name() == name@
                    &&& c.committed() == at
                    &&& c.reader().offset() == at
                    &&& c.ok(&final(self).topic_view())
                },
                Err(e) => {
                    &&& final(self).topic_view() == old(self).topic_view()
                    &&& if old(self).topic_view().consumers().contains_key(name@) {
                        e == StorageError::AlreadyExists && old(self).topic_view().consumers()[name@].active
                    } else {
                        e == StorageError::StorageFull && !old(self).topic_view().store().offset_room(name@)
                    }
                },
            },
    {
        self.topic.consumer(name)
    }

    /// The next change of a consumer.
    pub fn next(&mut self, consumer: &mut TopicConsumer) -> (r: Option<Vec<u8>>)
        requires
            old(self).wf(),
            old(consumer).ok(&old(self).topic_view()),
        ensures
            final(self).wf(),
            final(self).config_view() == old(self).config_view(),
            final(self).state_view() == old(self).state_view(),
            final(self).causal_view() == old(self).causal_view(),
            final(self).recovery_view() == old(self).recovery_view(),
            final(self).topic_view().read_only(&old(self).topic_view()),
            final(consumer).ok(&final(self).topic_view()),
            final(consumer).name() == old(consumer).name(),
            match r {
                Some(v) => old(consumer).reader().finds(&old(self).topic_view().log()) matches Some(f) && f.1 == v@
                    && final(consumer).reader().offset() == f.0 + 1,
                None => old(consumer).reader().finds(&old(self).topic_view().log()) is None
                    && final(consumer).reader().offset() == old(self).topic_view().log().next(),
            },
            // The record at the reader's offset, where it is retained; and for a reader in no segment whose
            // record is gone, the first that is.
            old(consumer).reader().offset() >= old(self).topic_view().log().earliest() ==> match r {
                Some(v) => old(consumer).reader().offset() < old(self).topic_view().log().next()
                    && v@ == old(self).topic_view().records()[old(consumer).reader().offset() - old(self).topic_view().log().earliest()] && final(consumer).reader().offset()
                    == old(consumer).reader().offset() + 1,
                None => old(consumer).reader().offset() >= old(self).topic_view().log().next(),
            },
            old(consumer).reader().offset() < old(self).topic_view().log().earliest()
                && old(consumer).reader().stands_in() is None ==> match r {
                Some(v) => old(self).topic_view().log().earliest() < old(self).topic_view().log().next()
                    && v@ == old(self).topic_view().records()[0]
                    && final(consumer).reader().offset() == old(self).topic_view().log().earliest() + 1,
                None => old(self).topic_view().log().earliest() == old(self).topic_view().log().next(),
            },
    {
        let ghost topic0 = self.topic;
        proof {
            self.topic.lemma_wf();
        }
        let r = consumer.next(&mut self.topic);
        proof {
            self.topic.lemma_wf();
            reader::growth_keeps_readers(self.recovery.reader(), topic0.log(), self.topic.log());
        }
        r
    }

    /// Stores how far a consumer has come.
    pub fn commit(&mut self, consumer: &mut TopicConsumer) -> (r: Result<(), StorageError>)
        requires
            old(self).wf(),
            old(consumer).ok(&old(self).topic_view()),
            old(consumer).name() != recovery_name(),
        ensures
            final(self).wf(),
            final(self).config_view() == old(self).config_view(),
            final(self).state_view() == old(self).state_view(),
            final(self).causal_view() == old(self).causal_view(),
            final(self).recovery_view() == old(self).recovery_view(),
            final(self).topic_view().log() == old(self).topic_view().log(),
            final(consumer).ok(&final(self).topic_view()),
            final(consumer).name() == old(consumer).name(),
            match r {
                Ok(_) => {
                    let n = old(consumer).name();
                    let o = old(consumer).reader().offset();
                    &&& old(self).topic_view().store().offset_room(n)
                    &&& final(consumer).committed() == o
                    &&& final(self).topic_view().consumers() == old(self).topic_view().consumers().insert(
                        n,
                        (Standing {
                            committed: o,
                            volatile: o,
                            active: old(self).topic_view().consumers()[n].active,
                        }),
                    )
                    &&& store::offset_stored(
                        old(self).topic_view().store().offsets(),
                        final(self).topic_view().store().offsets(),
                        n,
                        o,
                    )
                },
                Err(e) => {
                    &&& e == StorageError::StorageFull
                    &&& !old(self).topic_view().store().offset_room(old(consumer).name())
                    &&& final(self).topic_view() == old(self).topic_view()
                    &&& *final(consumer) == *old(consumer)
                },
            },
    {
        consumer.commit(&mut self.topic)
    }

    pub fn stats(&self) -> (r: TableStats)
        requires
            self.wf(),
        ensures
            r.state == self.state_view().counters(),
            r.causal == self.causal_view().counters(),
            r.topic == self.topic_view().stats_view(),
    {
        TableStats { state: self.state.stats(), causal: self.causal.stats(), topic: self.topic.stats() }
    }

    pub fn config(&self) -> (r: TableConfig)
        ensures
            r == self.config_view(),
    {
        self.config
    }

    /// What to keep of the rows, the receipts, the topic and the offsets of its consumers.
    pub fn images(&self) -> (r: (Vec<u8>, Vec<u8>, Vec<(u64, Vec<u8>)>, Vec<u8>))
        requires
            self.wf(),
        ensures
            State::durable(self.config_view().state) ==> State::keeps(self.config_view().state, r.0@, self.rows()),
            State::durable(self.config_view().causal) ==> State::keeps(
                self.config_view().causal,
                r.1@,
                self.receipts(),
            ),
            segment::written_as(self.topic_view().log().kept(), r.2@, Seq::empty()),
            r.3@ == self.topic_view().store().offsets().image_view(),
    {
        (self.state.image(), self.causal.image(), self.topic.segments(), self.topic.offsets_image().duplicate())
    }
}

impl Storage for Table {
    type Stats = TableStats;

    type Config = TableConfig;

    open spec fn valid(&self) -> bool {
        self.wf()
    }

    open spec fn settings(&self) -> TableConfig {
        self.config_view()
    }

    open spec fn counters(&self) -> TableStats {
        TableStats {
            state: self.state_view().counters(),
            causal: self.causal_view().counters(),
            topic: self.topic_view().stats_view(),
        }
    }

    fn stats(&self) -> (r: TableStats) {
        Table::stats(self)
    }

    fn config(&self) -> (r: TableConfig) {
        Table::config(self)
    }
}

impl ReadBackend for Table {
    open spec fn map(&self) -> Map<Seq<u8>, Seq<u8>> {
        self.rows()
    }

    open spec fn in_order(&self) -> bool {
        self.state_view().in_order()
    }

    fn get(&self, key: &Vec<u8>) -> (r: Option<Vec<u8>>) {
        self.state.get(key)
    }

    fn contains(&self, key: &Vec<u8>) -> (r: bool) {
        self.state.contains(key)
    }

    fn keys(&self) -> (r: Vec<Vec<u8>>) {
        self.state.keys()
    }

    fn values(&self) -> (r: Vec<Vec<u8>>) {
        assert(self.map() == self.state.map());
        self.state.values()
    }

    fn entries(&self) -> (r: Vec<(Vec<u8>, Vec<u8>)>) {
        self.state.entries()
    }

    fn size(&self) -> (r: usize) {
        self.state.size()
    }
}

impl OrderedReadBackend for Table {
    fn range(&self, start: &Vec<u8>, end: &Vec<u8>) -> (r: Vec<(Vec<u8>, Vec<u8>)>) {
        self.state.range(start, end)
    }

    fn first(&self) -> (r: Option<(Vec<u8>, Vec<u8>)>) {
        self.state.first()
    }

    fn last(&self) -> (r: Option<(Vec<u8>, Vec<u8>)>) {
        self.state.last()
    }

    fn entries_rev(&self) -> (r: Vec<(Vec<u8>, Vec<u8>)>) {
        self.state.entries_rev()
    }

    fn range_rev(&self, start: &Vec<u8>, end: &Vec<u8>) -> (r: Vec<(Vec<u8>, Vec<u8>)>) {
        self.state.range_rev(start, end)
    }
}

proof fn lemma_same_log(log: segment::SegmentLog)
    ensures
        log.same(log),
{
}

/// Whether all that is stored about authors are windows.
fn receipts_in_order(causal: &State) -> (r: bool)
    requires
        causal.valid(),
    ensures
        r == receipts_ok(causal.map()),
{
    let all: Vec<(Vec<u8>, Vec<u8>)> = causal.entries();
    let mut i: usize = 0;
    proof {
        maps::lemma_map_of(all@);
    }
    while i < all.len()
        invariant
            i <= all@.len(),
            maps::map_of(all@) == causal.map(),
            forall|j: int|
                0 <= j < all@.len() ==> maps::map_of(all@).contains_key((#[trigger] all@[j]).0@) && maps::map_of(
                    all@,
                )[all@[j].0@] == all@[j].1@,
            forall|j: int| 0 <= j < i ==> holds_window((#[trigger] all@[j]).1@),
        decreases all.len() - i,
    {
        match ReceiptWindow::decode(&all[i].1) {
            Some(w) => {
                proof {
                    assert(w.missing@.len() == w.missing.len());
                    lemma_window_in(all@[i as int].1@, w@);
                }
            },
            None => {
                proof {
                    let b = all@[i as int].1@;
                    if holds_window(b) {
                        let w = window_in(b);
                        assert(is_window(b, w));
                        assert(w.code() != b);
                    }
                    assert(causal.map().contains_key(all@[i as int].0@));
                }
                return false;
            },
        }
        i = i + 1;
    }
    proof {
        let m = causal.map();
        assert forall|k: Seq<u8>| #[trigger] m.contains_key(k) implies holds_window(m[k]) by {
            let j = choose|j: int| 0 <= j < all@.len() && (#[trigger] all@[j]).0@ == k;
            assert(holds_window(all@[j].1@));
        }
    }
    true
}

fn duplicate_opt(v: &Option<Vec<u8>>) -> (r: Option<Vec<u8>>)
    ensures
        change::opt_view(r) == change::opt_view(*v),
{
    match v {
        Some(x) => Some(x.duplicate()),
        None => None,
    }
}

/// Noting a window keeps all that is stored windows.
proof fn lemma_noted(before: Map<Seq<u8>, Seq<u8>>, after: Map<Seq<u8>, Seq<u8>>, author: Seq<u8>, w: Window)
    requires
        receipts_ok(before),
        after == before.insert(author, w.code()),
        w.wf(),
        w.missing.len() <= u64::MAX,
    ensures
        receipts_ok(after),
        receipt_of(after, author) == w,
        forall|a: Seq<u8>| a != author ==> #[trigger] receipt_of(after, a) == receipt_of(before, a),
{
    lemma_window_in(after[author], w);
    assert forall|k: Seq<u8>| #[trigger] after.contains_key(k) implies holds_window(after[k]) by {
        if k != author {
            assert(before.contains_key(k));
        }
    }
}

/// The window whose bytes they are is the only one.
proof fn lemma_window_in(b: Seq<u8>, w: Window)
    requires
        w.wf(),
        w.missing.len() <= u64::MAX,
        w.code() == b,
    ensures
        holds_window(b),
        window_in(b) == w,
{
    assert(is_window(b, w));
    receipt::code_is_unique(window_in(b), w);
}

} // verus!
