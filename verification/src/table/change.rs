//! What a table writes to its topic: an event, and the row before and after it.

use crate::engine::maps;
use crate::utils::key::Key;
use crate::utils::le;
use crate::utils::serdes;
use vstd::prelude::*;

verus! {

/// An event: who wrote it, its number among theirs, the row it speaks of, and what it does to it.
#[derive(Clone, Debug)]
pub struct Event {
    pub author: Vec<u8>,
    pub sequence: u64,
    pub primary_key: Vec<u8>,
    pub operations: Vec<u8>,
}

/// An event that changed a row, with the row before and after.
#[derive(Clone, Debug)]
pub struct Change {
    pub event: Event,
    pub previous: Option<Vec<u8>>,
    pub current: Option<Vec<u8>>,
}

/// What a change holds.
pub struct ChangeData {
    pub author: Seq<u8>,
    pub sequence: u64,
    pub primary_key: Seq<u8>,
    pub operations: Seq<u8>,
    pub previous: Option<Seq<u8>>,
    pub current: Option<Seq<u8>>,
}

/// The bytes of what may be there.
pub open spec fn opt_view(v: Option<Vec<u8>>) -> Option<Seq<u8>> {
    match v {
        Some(x) => Some(x@),
        None => None,
    }
}

impl View for Change {
    type V = ChangeData;

    open spec fn view(&self) -> ChangeData {
        ChangeData {
            author: self.event.author@,
            sequence: self.event.sequence,
            primary_key: self.event.primary_key@,
            operations: self.event.operations@,
            previous: opt_view(self.previous),
            current: opt_view(self.current),
        }
    }
}

/// A tag, and the byte string behind it where the tag is 1.
pub open spec fn opt_code(v: Option<Seq<u8>>) -> Seq<u8> {
    match v {
        Some(x) => seq![1u8] + serdes::bytes_code(x),
        None => seq![0u8],
    }
}

impl ChangeData {
    /// The fields one after the other.
    pub open spec fn code(self) -> Seq<u8> {
        serdes::bytes_code(self.author) + le::le8(self.sequence) + serdes::bytes_code(self.primary_key)
            + serdes::bytes_code(self.operations) + opt_code(self.previous) + opt_code(self.current)
    }

    /// The lengths can be written.
    pub open spec fn sized(self) -> bool {
        &&& self.author.len() <= u64::MAX
        &&& self.primary_key.len() <= u64::MAX
        &&& self.operations.len() <= u64::MAX
        &&& self.previous matches Some(x) ==> x.len() <= u64::MAX
        &&& self.current matches Some(x) ==> x.len() <= u64::MAX
    }
}

/// The byte string that starts at `at`, and where it ends.
pub open spec fn bytes_at(b: Seq<u8>, at: int) -> Option<(Seq<u8>, int)> {
    if at + 8 <= b.len() && at + 8 + le::u64_at(b, at) <= b.len() {
        let end = at + 8 + le::u64_at(b, at);
        Some((b.subrange(at + 8, end), end))
    } else {
        None
    }
}

/// The number that starts at `at`, and where it ends.
pub open spec fn number_at(b: Seq<u8>, at: int) -> Option<(u64, int)> {
    if at + 8 <= b.len() {
        Some((le::u64_at(b, at), at + 8))
    } else {
        None
    }
}

/// What may be there, from `at` on, and where it ends.
pub open spec fn opt_at(b: Seq<u8>, at: int) -> Option<(Option<Seq<u8>>, int)> {
    if at >= b.len() {
        None
    } else if b[at] == 0 {
        Some((None, at + 1))
    } else if b[at] == 1 {
        match bytes_at(b, at + 1) {
            Some((x, end)) => Some((Some(x), end)),
            None => None,
        }
    } else {
        None
    }
}

/// The change that the bytes start with.
pub open spec fn parse(b: Seq<u8>) -> Option<ChangeData> {
    match bytes_at(b, 0) {
        None => None,
        Some((author, a)) => match number_at(b, a) {
            None => None,
            Some((sequence, s)) => match bytes_at(b, s) {
                None => None,
                Some((primary_key, k)) => match bytes_at(b, k) {
                    None => None,
                    Some((operations, o)) => match opt_at(b, o) {
                        None => None,
                        Some((previous, p)) => match opt_at(b, p) {
                            None => None,
                            Some((current, _)) => Some(
                                ChangeData { author, sequence, primary_key, operations, previous, current },
                            ),
                        },
                    },
                },
            },
        },
    }
}

proof fn lemma_bytes_at(b: Seq<u8>, at: int, x: Seq<u8>)
    requires
        0 <= at,
        x.len() <= u64::MAX,
        at + 8 + x.len() <= b.len(),
        b.subrange(at, at + 8 + x.len()) == serdes::bytes_code(x),
    ensures
        bytes_at(b, at) == Some((x, at + 8 + x.len())),
{
    let c = b.subrange(at, at + 8 + x.len());
    serdes::lemma_bytes_code(x);
    assert forall|i: int| 0 <= i < 8 implies #[trigger] c[0 + i] == b[at + i] by {}
    le::lemma_u64_same(c, b, 0, at);
    assert(b.subrange(at + 8, at + 8 + x.len()) =~= c.subrange(8, 8 + x.len() as int));
}

proof fn lemma_opt_at(b: Seq<u8>, at: int, v: Option<Seq<u8>>)
    requires
        0 <= at,
        v matches Some(x) ==> x.len() <= u64::MAX,
        at + opt_code(v).len() <= b.len(),
        b.subrange(at, at + opt_code(v).len()) == opt_code(v),
    ensures
        opt_at(b, at) == Some((v, at + opt_code(v).len())),
{
    let c = b.subrange(at, at + opt_code(v).len());
    assert(c[0] == b[at]);
    match v {
        Some(x) => {
            assert(b.subrange(at + 1, at + 1 + 8 + x.len()) =~= c.subrange(1, 1 + 8 + x.len() as int));
            assert(c.subrange(1, 1 + 8 + x.len() as int) =~= serdes::bytes_code(x));
            lemma_bytes_at(b, at + 1, x);
        },
        None => {},
    }
}

/// The lengths of a change whose bytes can be counted can be written.
pub proof fn lemma_sized(c: ChangeData)
    requires
        c.code().len() <= u64::MAX,
    ensures
        c.sized(),
{
}

/// A change is read back as it was written, whatever follows it.
#[verifier::rlimit(60)]
pub proof fn change_round_trip(c: ChangeData, rest: Seq<u8>)
    requires
        c.sized(),
    ensures
        parse(c.code() + rest) == Some(c),
{
    let x1 = serdes::bytes_code(c.author);
    let x2 = le::le8(c.sequence);
    let x3 = serdes::bytes_code(c.primary_key);
    let x4 = serdes::bytes_code(c.operations);
    let x5 = opt_code(c.previous);
    let x6 = opt_code(c.current);
    let b = x1 + x2 + x3 + x4 + x5 + x6 + rest;
    lemma_pieces(x1, x2, x3, x4, x5, x6, rest);
    assert(c.code() + rest == b);
    assert(x1.len() == 8 + c.author.len() && x2.len() == 8 && x3.len() == 8 + c.primary_key.len() && x4.len() == 8
        + c.operations.len());
    lemma_parse(c, b, x1.len() as int, x3.len() as int, x4.len() as int, x5.len() as int, x6.len() as int);
}

/// Bytes with the pieces of a change in their places hold it.
proof fn lemma_parse(c: ChangeData, b: Seq<u8>, n1: int, n3: int, n4: int, n5: int, n6: int)
    requires
        c.sized(),
        n1 == 8 + c.author.len(),
        n3 == 8 + c.primary_key.len(),
        n4 == 8 + c.operations.len(),
        n5 == opt_code(c.previous).len(),
        n6 == opt_code(c.current).len(),
        n1 + 8 + n3 + n4 + n5 + n6 <= b.len(),
        b.subrange(0, n1) == serdes::bytes_code(c.author),
        b.subrange(n1, n1 + 8) == le::le8(c.sequence),
        b.subrange(n1 + 8, n1 + 8 + n3) == serdes::bytes_code(c.primary_key),
        b.subrange(n1 + 8 + n3, n1 + 8 + n3 + n4) == serdes::bytes_code(c.operations),
        b.subrange(n1 + 8 + n3 + n4, n1 + 8 + n3 + n4 + n5) == opt_code(c.previous),
        b.subrange(n1 + 8 + n3 + n4 + n5, n1 + 8 + n3 + n4 + n5 + n6) == opt_code(c.current),
    ensures
        parse(b) == Some(c),
{
    lemma_bytes_at(b, 0, c.author);
    assert(number_at(b, n1) == Some((c.sequence, n1 + 8))) by {
        assert forall|i: int| 0 <= i < 8 implies #[trigger] le::le8(c.sequence)[i] == b[n1 + i] by {
            assert(b.subrange(n1, n1 + 8)[i] == b[n1 + i]);
        }
        le::lemma_le8(b, n1, c.sequence);
    }
    lemma_bytes_at(b, n1 + 8, c.primary_key);
    lemma_bytes_at(b, n1 + 8 + n3, c.operations);
    lemma_opt_at(b, n1 + 8 + n3 + n4, c.previous);
    lemma_opt_at(b, n1 + 8 + n3 + n4 + n5, c.current);
}

/// What stands in the first part stands in the whole.
proof fn lemma_keep(p: Seq<u8>, y: Seq<u8>, lo: int, hi: int)
    requires
        0 <= lo <= hi <= p.len(),
    ensures
        (p + y).subrange(lo, hi) == p.subrange(lo, hi),
{
    assert((p + y).subrange(lo, hi) =~= p.subrange(lo, hi));
}

proof fn lemma_end(p: Seq<u8>, x: Seq<u8>)
    ensures
        (p + x).subrange(p.len() as int, p.len() + x.len() as int) == x,
{
    assert((p + x).subrange(p.len() as int, p.len() + x.len() as int) =~= x);
}

proof fn lemma_pieces(x1: Seq<u8>, x2: Seq<u8>, x3: Seq<u8>, x4: Seq<u8>, x5: Seq<u8>, x6: Seq<u8>, z: Seq<u8>)
    ensures
        ({
            let b = x1 + x2 + x3 + x4 + x5 + x6 + z;
            let (n1, n2, n3, n4, n5, n6) = (
                x1.len() as int,
                x2.len() as int,
                x3.len() as int,
                x4.len() as int,
                x5.len() as int,
                x6.len() as int,
            );
            &&& n1 + n2 + n3 + n4 + n5 + n6 <= b.len()
            &&& b.subrange(0, n1) == x1
            &&& b.subrange(n1, n1 + n2) == x2
            &&& b.subrange(n1 + n2, n1 + n2 + n3) == x3
            &&& b.subrange(n1 + n2 + n3, n1 + n2 + n3 + n4) == x4
            &&& b.subrange(n1 + n2 + n3 + n4, n1 + n2 + n3 + n4 + n5) == x5
            &&& b.subrange(n1 + n2 + n3 + n4 + n5, n1 + n2 + n3 + n4 + n5 + n6) == x6
        }),
{
    let (n1, n2, n3, n4, n5, n6) = (
        x1.len() as int,
        x2.len() as int,
        x3.len() as int,
        x4.len() as int,
        x5.len() as int,
        x6.len() as int,
    );
    let p2 = x1 + x2;
    let p3 = p2 + x3;
    let p4 = p3 + x4;
    let p5 = p4 + x5;
    let p6 = p5 + x6;
    assert(x1.subrange(0, n1) =~= x1);
    lemma_end(x1, x2);
    lemma_end(p2, x3);
    lemma_end(p3, x4);
    lemma_end(p4, x5);
    lemma_end(p5, x6);
    lemma_keep(x1, x2, 0, n1);
    lemma_keep(p2, x3, 0, n1);
    lemma_keep(p3, x4, 0, n1);
    lemma_keep(p4, x5, 0, n1);
    lemma_keep(p5, x6, 0, n1);
    lemma_keep(p6, z, 0, n1);
    lemma_keep(p2, x3, n1, n1 + n2);
    lemma_keep(p3, x4, n1, n1 + n2);
    lemma_keep(p4, x5, n1, n1 + n2);
    lemma_keep(p5, x6, n1, n1 + n2);
    lemma_keep(p6, z, n1, n1 + n2);
    lemma_keep(p3, x4, n1 + n2, n1 + n2 + n3);
    lemma_keep(p4, x5, n1 + n2, n1 + n2 + n3);
    lemma_keep(p5, x6, n1 + n2, n1 + n2 + n3);
    lemma_keep(p6, z, n1 + n2, n1 + n2 + n3);
    lemma_keep(p4, x5, n1 + n2 + n3, n1 + n2 + n3 + n4);
    lemma_keep(p5, x6, n1 + n2 + n3, n1 + n2 + n3 + n4);
    lemma_keep(p6, z, n1 + n2 + n3, n1 + n2 + n3 + n4);
    lemma_keep(p5, x6, n1 + n2 + n3 + n4, n1 + n2 + n3 + n4 + n5);
    lemma_keep(p6, z, n1 + n2 + n3 + n4, n1 + n2 + n3 + n4 + n5);
    lemma_keep(p6, z, n1 + n2 + n3 + n4 + n5, n1 + n2 + n3 + n4 + n5 + n6);
}

fn push_opt(out: &mut Vec<u8>, v: &Option<Vec<u8>>)
    ensures
        final(out)@ == old(out)@ + opt_code(opt_view(*v)),
{
    match v {
        Some(x) => {
            out.push(1);
            let code: Vec<u8> = serdes::encode_bytes(x);
            le::push_bytes(out, &code);
        },
        None => {
            out.push(0);
        },
    }
    assert(out@ =~= old(out)@ + opt_code(opt_view(*v)));
}

fn read_bytes_at(b: &[u8], at: usize) -> (r: Option<(Vec<u8>, usize)>)
    requires
        at <= b@.len(),
    ensures
        match r {
            Some((v, end)) => bytes_at(b@, at as int) == Some((v@, end as int)) && end <= b@.len(),
            None => bytes_at(b@, at as int) is None,
        },
{
    assert(b@.len() == b.len());
    if b.len() - at < 8 {
        return None;
    }
    let n: u64 = le::rd_u64(b, at);
    if n > (b.len() - at - 8) as u64 {
        return None;
    }
    let end: usize = at + 8 + n as usize;
    Some((le::copy_range(b, at + 8, end), end))
}

fn read_opt_at(b: &[u8], at: usize) -> (r: Option<(Option<Vec<u8>>, usize)>)
    requires
        at <= b@.len(),
    ensures
        match r {
            Some((v, end)) => opt_at(b@, at as int) == Some((opt_view(v), end as int)) && end <= b@.len(),
            None => opt_at(b@, at as int) is None,
        },
{
    if at >= b.len() {
        return None;
    }
    if b[at] == 0 {
        Some((None, at + 1))
    } else if b[at] == 1 {
        match read_bytes_at(b, at + 1) {
            Some((x, end)) => Some((Some(x), end)),
            None => None,
        }
    } else {
        None
    }
}

impl Event {
    /// A copy.
    pub fn duplicate(&self) -> (r: Event)
        ensures
            r.author@ == self.author@,
            r.sequence == self.sequence,
            r.primary_key@ == self.primary_key@,
            r.operations@ == self.operations@,
    {
        Event {
            author: self.author.duplicate(),
            sequence: self.sequence,
            primary_key: self.primary_key.duplicate(),
            operations: self.operations.duplicate(),
        }
    }
}

impl Change {
    /// The bytes of the change.
    pub fn encode(&self) -> (r: Vec<u8>)
        ensures
            r@ == self@.code(),
            self@.sized(),
    {
        let mut out: Vec<u8> = serdes::encode_bytes(&self.event.author);
        let sequence: Vec<u8> = serdes::encode_u64(self.event.sequence);
        let key: Vec<u8> = serdes::encode_bytes(&self.event.primary_key);
        let operations: Vec<u8> = serdes::encode_bytes(&self.event.operations);
        le::push_bytes(&mut out, &sequence);
        le::push_bytes(&mut out, &key);
        le::push_bytes(&mut out, &operations);
        push_opt(&mut out, &self.previous);
        push_opt(&mut out, &self.current);
        proof {
            assert(self.event.author@.len() == self.event.author.len());
            assert(self.event.primary_key@.len() == self.event.primary_key.len());
            assert(self.event.operations@.len() == self.event.operations.len());
            if self.previous is Some {
                assert(self.previous->Some_0@.len() == self.previous->Some_0.len());
            }
            if self.current is Some {
                assert(self.current->Some_0@.len() == self.current->Some_0.len());
            }
        }
        assert(out@ =~= self@.code());
        out
    }

    /// Reads a change from the start of the bytes, or `None` where they hold none.
    pub fn decode(b: &[u8]) -> (r: Option<Change>)
        ensures
            match r {
                Some(c) => parse(b@) == Some(c@),
                None => parse(b@) is None,
            },
    {
        let (author, a) = match read_bytes_at(b, 0) {
            Some(p) => p,
            None => {
                return None;
            },
        };
        if b.len() - a < 8 {
            return None;
        }
        let sequence: u64 = le::rd_u64(b, a);
        let (primary_key, k) = match read_bytes_at(b, a + 8) {
            Some(p) => p,
            None => {
                return None;
            },
        };
        let (operations, o) = match read_bytes_at(b, k) {
            Some(p) => p,
            None => {
                return None;
            },
        };
        let (previous, p) = match read_opt_at(b, o) {
            Some(p) => p,
            None => {
                return None;
            },
        };
        let (current, _) = match read_opt_at(b, p) {
            Some(p) => p,
            None => {
                return None;
            },
        };
        Some(Change { event: Event { author, sequence, primary_key, operations }, previous, current })
    }
}

/// What is read as a change is the bytes of that change, with whatever follows them.
#[verifier::rlimit(40)]
pub proof fn parsed_bytes_are_the_change(b: Seq<u8>)
    ensures
        parse(b) matches Some(c) ==> c.code().len() <= b.len() && b.take(c.code().len() as int) == c.code(),
{
    if let Some(c) = parse(b) {
        let a = lemma_bytes_there(b, 0);
        let s = a + 8;
        le::lemma_le8_inverse(b, a);
        let k = lemma_bytes_there(b, s);
        let o = lemma_bytes_there(b, k);
        let p = lemma_opt_there(b, o);
        let e = lemma_opt_there(b, p);
        let x1 = b.subrange(0, a);
        let x2 = b.subrange(a, s);
        let x3 = b.subrange(s, k);
        let x4 = b.subrange(k, o);
        let x5 = b.subrange(o, p);
        let x6 = b.subrange(p, e);
        assert(c.code() == x1 + x2 + x3 + x4 + x5 + x6);
        assert(x1 + x2 + x3 + x4 + x5 + x6 =~= b.take(e));
        assert(c.code().len() == e);
    }
}

proof fn lemma_bytes_there(b: Seq<u8>, at: int) -> (end: int)
    requires
        0 <= at,
        bytes_at(b, at) is Some,
    ensures
        end == bytes_at(b, at)->Some_0.1,
        at <= end <= b.len(),
        b.subrange(at, end) == serdes::bytes_code(bytes_at(b, at)->Some_0.0),
{
    let x = bytes_at(b, at)->Some_0.0;
    let end = bytes_at(b, at)->Some_0.1;
    le::lemma_le8_inverse(b, at);
    assert(x.len() == le::u64_at(b, at));
    assert(b.subrange(at, end) =~= b.subrange(at, at + 8) + b.subrange(at + 8, end));
    end
}

proof fn lemma_opt_there(b: Seq<u8>, at: int) -> (end: int)
    requires
        0 <= at,
        opt_at(b, at) is Some,
    ensures
        end == opt_at(b, at)->Some_0.1,
        at <= end <= b.len(),
        b.subrange(at, end) == opt_code(opt_at(b, at)->Some_0.0),
{
    let end = opt_at(b, at)->Some_0.1;
    if b[at] == 1 {
        let e = lemma_bytes_there(b, at + 1);
        assert(b.subrange(at, end) =~= seq![1u8] + b.subrange(at + 1, end));
    } else {
        assert(b.subrange(at, end) =~= seq![0u8]);
    }
    end
}

/// The rows after one change has been replayed.
pub open spec fn replay_one(rows: Map<Seq<u8>, Seq<u8>>, c: ChangeData) -> Map<Seq<u8>, Seq<u8>> {
    match c.current {
        Some(v) => rows.insert(c.primary_key, v),
        None => rows.remove(c.primary_key),
    }
}

/// The rows after records have been replayed.
pub open spec fn replayed(rows: Map<Seq<u8>, Seq<u8>>, records: Seq<Seq<u8>>) -> Map<Seq<u8>, Seq<u8>>
    decreases records.len(),
{
    if records.len() == 0 {
        rows
    } else {
        let before = replayed(rows, records.drop_last());
        match parse(records.last()) {
            Some(c) => replay_one(before, c),
            None => before,
        }
    }
}

/// All records hold changes.
pub open spec fn all_parse(records: Seq<Seq<u8>>) -> bool {
    forall|i: int| 0 <= i < records.len() ==> parse(#[trigger] records[i]) is Some
}

/// Two sets of rows agree on all rows that no record speaks of.
pub open spec fn agree_beyond(a: Map<Seq<u8>, Seq<u8>>, b: Map<Seq<u8>, Seq<u8>>, records: Seq<Seq<u8>>) -> bool {
    forall|k: Seq<u8>|
        #![trigger last_on(records, k)]
        last_on(records, k) < 0 ==> maps::agree_at(a, b, k)
}

/// The last record that speaks of a row, or -1.
pub open spec fn last_on(records: Seq<Seq<u8>>, k: Seq<u8>) -> int
    decreases records.len(),
{
    if records.len() == 0 {
        -1
    } else if parse(records.last()) is Some && parse(records.last())->Some_0.primary_key == k {
        records.len() - 1
    } else {
        last_on(records.drop_last(), k)
    }
}

/// Rows that have any part of the changes already, old or new, have all of them after a replay:
/// the last change of each row counts.
pub proof fn replay_catches_up(a: Map<Seq<u8>, Seq<u8>>, b: Map<Seq<u8>, Seq<u8>>, records: Seq<Seq<u8>>)
    requires
        agree_beyond(a, b, records),
    ensures
        replayed(a, records) == replayed(b, records),
{
    assert forall|k: Seq<u8>| #[trigger]
        replayed(b, records).contains_key(k) == replayed(a, records).contains_key(k) && (replayed(
            a,
            records,
        ).contains_key(k) ==> replayed(b, records)[k] == replayed(a, records)[k]) by {
        lemma_replayed_key(a, records, k);
        lemma_replayed_key(b, records, k);
    }
    assert(replayed(b, records) =~= replayed(a, records));
}

/// Replaying changes that were already applied changes nothing.
pub proof fn replay_is_idempotent(rows: Map<Seq<u8>, Seq<u8>>, records: Seq<Seq<u8>>)
    ensures
        replayed(replayed(rows, records), records) == replayed(rows, records),
{
    lemma_replayed_beyond(rows, records);
    replay_catches_up(replayed(rows, records), rows, records);
}

/// A replay leaves the other rows alone.
pub proof fn lemma_replayed_beyond(rows: Map<Seq<u8>, Seq<u8>>, records: Seq<Seq<u8>>)
    ensures
        agree_beyond(replayed(rows, records), rows, records),
{
    assert forall|k: Seq<u8>|
        #![trigger last_on(records, k)]
        last_on(records, k) < 0 implies maps::agree_at(replayed(rows, records), rows, k) by {
        lemma_replayed_key(rows, records, k);
    }
}

/// One more change on top of a replay.
pub proof fn lemma_replayed_push(rows: Map<Seq<u8>, Seq<u8>>, records: Seq<Seq<u8>>, c: ChangeData)
    requires
        c.sized(),
    ensures
        replayed(rows, records.push(c.code())) == replay_one(replayed(rows, records), c),
{
    let all = records.push(c.code());
    change_round_trip(c, Seq::empty());
    assert(c.code() + Seq::<u8>::empty() =~= c.code());
    assert(all.drop_last() =~= records);
    assert(all.last() == c.code());
}

/// After a replay a row is what the last change to it says: the value that the change has, or gone
/// where it has none.
pub proof fn last_change_decides(rows: Map<Seq<u8>, Seq<u8>>, records: Seq<Seq<u8>>, i: int)
    requires
        0 <= i < records.len(),
        parse(records[i]) is Some,
        forall|j: int|
            i < j < records.len() && parse(#[trigger] records[j]) is Some ==> parse(records[j])->Some_0.primary_key
                != parse(records[i])->Some_0.primary_key,
    ensures
        ({
            let c = parse(records[i])->Some_0;
            match c.current {
                Some(v) => replayed(rows, records).contains_key(c.primary_key)
                    && replayed(rows, records)[c.primary_key] == v,
                None => !replayed(rows, records).contains_key(c.primary_key),
            }
        }),
    decreases records.len(),
{
    let d = records.drop_last();
    if i < d.len() {
        assert(d[i] == records[i]);
        assert forall|j: int| i < j < d.len() && parse(#[trigger] d[j]) is Some implies parse(d[j])->Some_0.primary_key
            != parse(d[i])->Some_0.primary_key by {
            assert(d[j] == records[j]);
        }
        assert(records.last() == records[records.len() - 1]);
        last_change_decides(rows, d, i);
    }
}

/// A replay leaves a row alone that no change speaks of.
pub proof fn rows_without_changes_stay(rows: Map<Seq<u8>, Seq<u8>>, records: Seq<Seq<u8>>, k: Seq<u8>)
    requires
        forall|j: int|
            0 <= j < records.len() && parse(#[trigger] records[j]) is Some ==> parse(records[j])->Some_0.primary_key != k,
    ensures
        replayed(rows, records).contains_key(k) == rows.contains_key(k),
        rows.contains_key(k) ==> replayed(rows, records)[k] == rows[k],
    decreases records.len(),
{
    if records.len() > 0 {
        let d = records.drop_last();
        assert forall|j: int| 0 <= j < d.len() && parse(#[trigger] d[j]) is Some implies parse(
            d[j],
        )->Some_0.primary_key != k by {
            assert(d[j] == records[j]);
        }
        assert(records.last() == records[records.len() - 1]);
        rows_without_changes_stay(rows, d, k);
    }
}

/// A row after a replay is what the last record on it says, or what it was.
proof fn lemma_replayed_key(rows: Map<Seq<u8>, Seq<u8>>, records: Seq<Seq<u8>>, k: Seq<u8>)
    ensures
        -1 <= last_on(records, k) < records.len(),
        ({
            let i = last_on(records, k);
            let m = replayed(rows, records);
            if i < 0 {
                m.contains_key(k) == rows.contains_key(k) && (rows.contains_key(k) ==> m[k] == rows[k])
            } else {
                let c = parse(records[i])->Some_0;
                m.contains_key(k) == (c.current is Some) && (c.current is Some ==> m[k] == c.current->Some_0)
            }
        }),
    decreases records.len(),
{
    if records.len() > 0 {
        let d = records.drop_last();
        lemma_replayed_key(rows, d, k);
        if last_on(records, k) < records.len() - 1 && last_on(records, k) >= 0 {
            assert(d[last_on(d, k)] == records[last_on(d, k)]);
        }
    }
}

} // verus!
