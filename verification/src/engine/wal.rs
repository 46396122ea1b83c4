//! A write-ahead log: entries in frames `[length u32][bytes]`, appended and read in order.
//!
//! Entries gather in a buffer of bounded size and go to the file when the next one does not fit,
//! when the buffer has been waiting longer than `linger`, or on request. An entry that is larger
//! than the whole buffer goes straight to the file, behind what was waiting.

use crate::error::StorageError;
use crate::utils::frames;
use crate::utils::le;
use crate::utils::time;
use crate::utils::time::Duration;
use vstd::prelude::*;

verus! {

/// The buffer's size where nothing else is asked for.
pub const DEFAULT_MAX_BUF: usize = 16384;

/// What the frame adds to an entry.
pub const FRAMING: usize = 4;

/// How a log buffers its entries.
#[derive(Clone, Copy, Debug, PartialEq, Eq, Structural)]
pub struct WalConfig {
    /// The most bytes that wait in the buffer.
    pub max_buf: usize,
    /// How long bytes may wait before the next occasion writes them. `None`: as long as there is
    /// room.
    pub linger: Option<Duration>,
}

impl Default for WalConfig {
    fn default() -> (r: WalConfig)
        ensures
            r.max_buf == DEFAULT_MAX_BUF,
            r.max_buf == 16384,
            r.linger is None,
    {
        WalConfig { max_buf: DEFAULT_MAX_BUF, linger: None }
    }
}

/// The low and the high half of `v`, eight bytes each.
pub open spec fn le16(v: int) -> Seq<u8> {
    le::le8((v % 0x1_0000_0000_0000_0000) as u64) + le::le8((v / 0x1_0000_0000_0000_0000) as u64)
}

impl WalConfig {
    /// The bytes of the configuration: the buffer's size, a flag, and the milliseconds where the
    /// flag is set.
    pub open spec fn code(self) -> Seq<u8> {
        le::le8(self.max_buf as u64) + match self.linger {
            Some(d) => seq![1u8] + le16(d.millis()),
            None => seq![0u8],
        }
    }

    /// The bytes that hold a configuration at their start.
    pub open spec fn readable(b: Seq<u8>) -> bool {
        b.len() >= 9 && (b[8] == 1 ==> b.len() >= 25)
    }

    /// How many bytes the configuration at the start of `b` takes.
    pub open spec fn taken(b: Seq<u8>) -> int {
        if b[8] == 1 {
            25
        } else {
            9
        }
    }

    /// Appends the bytes of the configuration to `out`.
    pub fn encode(&self, out: &mut Vec<u8>)
        ensures
            final(out)@ == old(out)@ + self.code(),
    {
        le::push_u64(out, self.max_buf as u64);
        match self.linger {
            Some(d) => {
                out.push(1);
                let ms: u128 = d.as_millis();
                le::push_u64(out, (ms % 0x1_0000_0000_0000_0000) as u64);
                le::push_u64(out, (ms / 0x1_0000_0000_0000_0000) as u64);
            },
            None => {
                out.push(0);
            },
        }
        assert(out@ =~= old(out)@ + self.code());
    }

    /// Reads a configuration from the start of `bytes`, with the number of bytes that it takes.
    /// Of the milliseconds the low eight bytes count.
    pub fn decode(bytes: &[u8]) -> (r: Result<(WalConfig, usize), StorageError>)
        ensures
            match r {
                Ok(found) => {
                    &&& WalConfig::readable(bytes@)
                    &&& found.0.max_buf == le::u64_at(bytes@, 0) as usize
                    &&& found.1 == WalConfig::taken(bytes@)
                    &&& match found.0.linger {
                        Some(d) => bytes@[8] == 1 && d.nanos == le::u64_at(bytes@, 9) * 1000000,
                        None => bytes@[8] != 1,
                    }
                },
                Err(e) => !WalConfig::readable(bytes@) && e == StorageError::UnexpectedEof,
            },
    {
        if bytes.len() < 9 {
            return Err(StorageError::UnexpectedEof);
        }
        let max_buf: usize = le::rd_u64(bytes, 0) as usize;
        if bytes[8] == 1 {
            if bytes.len() < 25 {
                return Err(StorageError::UnexpectedEof);
            }
            let ms: u64 = le::rd_u64(bytes, 9);
            Ok((WalConfig { max_buf, linger: Some(Duration::from_millis(ms)) }, 25))
        } else {
            Ok((WalConfig { max_buf, linger: None }, 9))
        }
    }
}

/// Reading the bytes of a configuration gives it back, whatever follows them, with its time cut to
/// whole milliseconds. Of these the low eight bytes are read, which are all of them but for times
/// of millions of years.
pub proof fn config_round_trip(c: WalConfig, rest: Seq<u8>)
    ensures
        WalConfig::readable(c.code() + rest),
        WalConfig::taken(c.code() + rest) == c.code().len(),
        le::u64_at(c.code() + rest, 0) as usize == c.max_buf,
        c.linger is Some <==> (c.code() + rest)[8] == 1,
        c.linger matches Some(d) ==> le::u64_at(c.code() + rest, 9) == d.millis() % 0x1_0000_0000_0000_0000,
        c.linger matches Some(d) ==> (d.millis() <= u64::MAX ==> le::u64_at(c.code() + rest, 9) * 1000000 == d.nanos
            - d.nanos % 1000000),
{
    let b = c.code() + rest;
    let m = c.max_buf as u64;
    assert forall|i: int| 0 <= i < 8 implies #[trigger] le::le8(m)[i] == b[0 + i] by {}
    le::lemma_le8(b, 0, m);
    assert((m as usize) == c.max_buf);
    match c.linger {
        Some(d) => {
            let lo = (d.millis() % 0x1_0000_0000_0000_0000) as u64;
            assert(c.code().len() == 25);
            assert forall|i: int| 0 <= i < 8 implies #[trigger] le::le8(lo)[i] == b[9 + i] by {}
            le::lemma_le8(b, 9, lo);
        },
        None => {},
    }
}

/// One entry of a log.
#[derive(Clone, Debug)]
pub struct WalEntry {
    pub data: Vec<u8>,
}

/// The bytes are whole frames and nothing else.
pub open spec fn whole_frames(b: Seq<u8>) -> bool {
    frames::frames(frames::scan(b, 0)) == b
}

/// A log: the bytes that went to the file, those that wait, and when bytes last went.
pub struct Wal {
    file: Vec<u8>,
    config: WalConfig,
    buf: Vec<u8>,
    last_flush: Duration,
}

/// What a log holds, as far as its operations tell.
pub struct WalState {
    /// The entries that went to the file.
    pub written: Seq<Seq<u8>>,
    /// The entries that wait.
    pub waiting: Seq<Seq<u8>>,
    /// When bytes last went to the file.
    pub last_flush: Duration,
}

impl WalState {
    /// All entries in the order they were appended.
    pub open spec fn entries(self) -> Seq<Seq<u8>> {
        self.written + self.waiting
    }

    /// The state after what waits has gone to the file.
    pub open spec fn flushed(self, now: Duration) -> WalState {
        if self.waiting.len() == 0 {
            self
        } else {
            WalState { written: self.entries(), waiting: Seq::empty(), last_flush: now }
        }
    }

    /// Entries have waited too long.
    pub open spec fn stale(self, config: WalConfig, now: Duration) -> bool {
        match config.linger {
            Some(d) => self.waiting.len() > 0 && time::since(self.last_flush, now) >= d.nanos,
            None => false,
        }
    }

    /// The state after what waited too long has gone to the file.
    pub open spec fn settled(self, config: WalConfig, now: Duration) -> WalState {
        if self.stale(config, now) {
            self.flushed(now)
        } else {
            self
        }
    }

    /// The state after an entry has been appended.
    pub open spec fn appended(self, config: WalConfig, e: Seq<u8>, now: Duration) -> WalState {
        let s = self.settled(config, now);
        let needed = e.len() + FRAMING;
        if needed > config.max_buf {
            let f = s.flushed(now);
            WalState { written: f.written.push(e), waiting: Seq::empty(), last_flush: f.last_flush }
        } else if frames::frames(s.waiting).len() + needed > config.max_buf {
            let f = s.flushed(now);
            WalState { written: f.written, waiting: seq![e], last_flush: f.last_flush }
        } else {
            WalState { written: s.written, waiting: s.waiting.push(e), last_flush: s.last_flush }
        }
    }
}

/// Appending adds the entry behind the others and loses none, whatever goes to the file.
pub proof fn append_keeps_order(s: WalState, config: WalConfig, e: Seq<u8>, now: Duration)
    ensures
        s.appended(config, e, now).entries() == s.entries().push(e),
{
    let m = s.settled(config, now);
    assert(m.entries() =~= s.entries());
    assert(s.appended(config, e, now).entries() =~= s.entries().push(e));
}

/// What an append sends to the file: all that waited, where it has waited as long as `linger` says
/// or the buffer cannot hold it together with the entry; the entry, where the buffer cannot hold
/// even that alone; and nothing else.
pub proof fn append_sends_what_it_must(s: WalState, config: WalConfig, e: Seq<u8>, now: Duration)
    ensures
        ({
            let t = s.appended(config, e, now);
            let late = config.linger matches Some(d) && (d.nanos == 0 || now.nanos >= s.last_flush.nanos + d.nanos);
            let fits = frames::frames(s.waiting.push(e)).len() <= config.max_buf;
            let alone = frames::frames(seq![e]).len() <= config.max_buf;
            &&& !late && fits && alone ==> t.written == s.written && t.waiting == s.waiting.push(e)
            &&& late && alone || !fits && alone ==> t.written == s.written + s.waiting && t.waiting == seq![e]
            &&& !alone ==> t.written == (s.written + s.waiting).push(e) && t.waiting.len() == 0
            &&& t.last_flush == (if s.waiting.len() > 0 && (late || !fits) {
                now
            } else {
                s.last_flush
            })
        }),
{
    let none = Seq::<Seq<u8>>::empty();
    let needed = e.len() + FRAMING;
    assert(s.waiting.push(e).drop_last() =~= s.waiting);
    assert(seq![e].drop_last() =~= none);
    assert(frames::frames(none).len() == 0);
    assert(frames::frames(seq![e]).len() == needed);
    assert(frames::frames(s.waiting.push(e)).len() == frames::frames(s.waiting).len() + needed);
    assert(s.written + none =~= s.written);
    if s.waiting.len() == 0 {
        assert(s.waiting =~= none);
        assert(s.waiting.push(e) =~= seq![e]);
    }
    assert(none.push(e) =~= seq![e]);
}

proof fn lemma_push(b: Seq<u8>, e: Seq<u8>)
    requires
        whole_frames(b),
        e.len() <= u32::MAX,
    ensures
        whole_frames(b + frames::frame(e)),
        frames::scan(b + frames::frame(e), 0) == frames::scan(b, 0).push(e),
{
    let rs = frames::scan(b, 0);
    let all = rs.push(e);
    let nb = b + frames::frame(e);
    frames::lemma_scan_stands(b, 0);
    assert(all.drop_last() =~= rs);
    assert(frames::frames(all) == nb);
    assert(nb.subrange(0, nb.len() as int) =~= nb);
    assert(frames::frames_ok(all));
    assert(frames::stand_at(nb, 0, all));
    frames::lemma_scan(nb, 0, all, 0);
    assert(all.take(0) =~= Seq::empty());
    assert(frames::frames(all.take(0)).len() == 0);
    assert(all.skip(0) =~= all);
}

proof fn lemma_join(a: Seq<u8>, b: Seq<u8>)
    requires
        whole_frames(a),
        whole_frames(b),
    ensures
        whole_frames(a + b),
        frames::scan(a + b, 0) == frames::scan(a, 0) + frames::scan(b, 0),
{
    let ra = frames::scan(a, 0);
    let rb = frames::scan(b, 0);
    let all = ra + rb;
    let nb = a + b;
    frames::lemma_scan_stands(a, 0);
    frames::lemma_scan_stands(b, 0);
    frames::lemma_append(ra, rb);
    assert(nb.subrange(0, nb.len() as int) =~= nb);
    assert(frames::frames_ok(all)) by {
        assert forall|i: int| 0 <= i < all.len() implies (#[trigger] all[i]).len() <= u32::MAX by {
            if i < ra.len() {
                assert(all[i] == ra[i]);
            } else {
                assert(all[i] == rb[i - ra.len()]);
            }
        }
    }
    frames::lemma_scan(nb, 0, all, 0);
    assert(all.take(0) =~= Seq::empty());
    assert(frames::frames(all.take(0)).len() == 0);
    assert(all.skip(0) =~= all);
}

/// A list with others behind it is another one, unless there are none.
proof fn lemma_longer(a: Seq<Seq<u8>>, b: Seq<Seq<u8>>)
    ensures
        (a + b == a) == (b.len() == 0),
{
    if b.len() == 0 {
        assert(a + b =~= a);
    } else {
        assert((a + b).len() > a.len());
    }
}

proof fn lemma_nothing(b: Seq<u8>)
    requires
        whole_frames(b),
    ensures
        b.len() == 0 <==> frames::scan(b, 0).len() == 0,
{
    let rs = frames::scan(b, 0);
    frames::lemma_prefix(rs, 0);
    if rs.len() == 0 {
        assert(frames::frames(rs).len() == 0);
    }
}

impl Wal {
    pub closed spec fn state(&self) -> WalState {
        WalState {
            written: frames::scan(self.file@, 0),
            waiting: frames::scan(self.buf@, 0),
            last_flush: self.last_flush,
        }
    }

    /// The bytes that went to the file.
    pub closed spec fn bytes(&self) -> Seq<u8> {
        self.file@
    }

    pub closed spec fn settings(&self) -> WalConfig {
        self.config
    }

    /// Both parts are whole frames, and no more waits than the buffer may hold.
    pub closed spec fn wf(&self) -> bool {
        &&& whole_frames(self.file@)
        &&& whole_frames(self.buf@)
        &&& self.buf@.len() <= self.config.max_buf
    }

    /// All entries in the order they were appended.
    pub open spec fn entries(&self) -> Seq<Seq<u8>> {
        self.state().entries()
    }

    /// The bytes of the log with what waits, and those of an entry of `n` bytes, can be counted.
    pub open spec fn has_room(&self, n: int) -> bool {
        self.bytes().len() + frames::frames(self.state().waiting).len() + n + FRAMING <= usize::MAX
    }

    /// A new log at the moment `now`.
    pub fn create(config: WalConfig, now: Duration) -> (w: Wal)
        ensures
            w.wf(),
            w.settings() == config,
            w.bytes().len() == 0,
            w.state() == (WalState { written: Seq::empty(), waiting: Seq::empty(), last_flush: now }),
    {
        let w = Wal { file: Vec::new(), config, buf: Vec::new(), last_flush: now };
        assert(frames::scan(w.file@, 0) =~= Seq::empty());
        assert(frames::scan(w.buf@, 0) =~= Seq::empty());
        assert(frames::frames(Seq::empty()) =~= w.file@);
        assert(frames::frames(Seq::empty()) =~= w.buf@);
        w
    }

    /// The log that a file's bytes hold, for appending and reading, at the moment `now`. An entry
    /// that is cut off at the end is dropped, so that what is appended can be read.
    pub fn open(image: Vec<u8>, config: WalConfig, now: Duration) -> (w: Wal)
        ensures
            w.wf(),
            w.settings() == config,
            w.bytes() == image@.take(frames::frames(frames::scan(image@, 0)).len() as int),
            w.state() == (WalState {
                written: frames::scan(image@, 0),
                waiting: Seq::empty(),
                last_flush: now,
            }),
    {
        let mut file = image;
        let (_, end) = frames::count_frames(&file, 0);
        let ghost all = frames::scan(file@, 0);
        proof {
            frames::lemma_scan_stands(file@, 0);
        }
        let ghost full = file@;
        file.truncate(end);
        let w = Wal { file, config, buf: Vec::new(), last_flush: now };
        proof {
            let b = w.file@;
            assert(b =~= full.subrange(0, end as int));
            assert(b == frames::frames(all));
            assert(b.subrange(0, b.len() as int) =~= b);
            frames::lemma_scan(b, 0, all, 0);
            assert(all.take(0) =~= Seq::empty());
            assert(frames::frames(all.take(0)).len() == 0);
            assert(all.skip(0) =~= all);
            assert(frames::scan(w.buf@, 0) =~= Seq::empty());
            assert(frames::frames(Seq::empty()) =~= w.buf@);
        }
        w
    }

    /// Appends an entry.
    ///
    /// What has waited too long goes to the file first. An entry that is larger than the buffer
    /// goes straight to the file, behind what waits; one that does not fit next to what waits
    /// sends that on its way and waits alone.
    pub fn append(&mut self, entry: &[u8], now: Duration) -> (r: Result<(), StorageError>)
        requires
            old(self).wf(),
            entry@.len() <= u32::MAX,
        ensures
            final(self).wf(),
            final(self).settings() == old(self).settings(),
            match r {
                Ok(_) => old(self).has_room(entry@.len() as int) && final(self).state()
                    == old(self).state().appended(old(self).settings(), entry@, now),
                Err(e) => !old(self).has_room(entry@.len() as int) && *final(self) == *old(self) && e
                    == StorageError::StorageFull,
            },
            // The entry comes last, and all others stay in their order.
            r is Ok ==> final(self).state().written + final(self).state().waiting
                == (old(self).state().written + old(self).state().waiting).push(entry@),
            // What waited as long as `linger` says is in the file, whatever the entry's size.
            r is Ok && (old(self).settings().linger matches Some(d) && (d.nanos == 0 || now.nanos
                >= old(self).state().last_flush.nanos + d.nanos)) ==> final(self).state().written.len()
                >= old(self).state().written.len() + old(self).state().waiting.len(),
            // Otherwise nothing goes to the file as long as the buffer has room.
            r is Ok && !(old(self).settings().linger matches Some(d) && (d.nanos == 0 || now.nanos
                >= old(self).state().last_flush.nanos + d.nanos)) && frames::frames(
                old(self).state().waiting.push(entry@),
            ).len() <= old(self).settings().max_buf ==> final(self).bytes() == old(self).bytes()
                && final(self).state().written == old(self).state().written,
            // An entry waits just where the buffer can hold it.
            r is Ok ==> (final(self).state().waiting.len() == 0 <==> frames::frames(seq![entry@]).len()
                > old(self).settings().max_buf),
            // What goes to the file goes with all that waited.
            r is Ok && final(self).state().written != old(self).state().written ==> final(self).state().waiting.len() <= 1,
            r is Ok ==> final(self).state().last_flush == (if old(self).state().waiting.len() > 0
                && final(self).state().written != old(self).state().written {
                now
            } else {
                old(self).state().last_flush
            }),
    {
        let most: usize = usize::MAX;
        if self.file.len() > most - self.buf.len() || entry.len() > most - FRAMING || entry.len() + FRAMING
            > most - self.buf.len() - self.file.len() {
            return Err(StorageError::StorageFull);
        }
        proof {
            append_keeps_order(self.state(), self.config, entry@, now);
            append_sends_what_it_must(self.state(), self.config, entry@, now);
            let s = self.state();
            let one = seq![entry@];
            frames::lemma_append(s.waiting, one);
            assert(s.waiting + one =~= s.waiting.push(entry@));
            lemma_longer(s.written, s.waiting);
            lemma_longer(s.written + s.waiting, one);
        }
        let _ = self.flush_if_stale(now);
        let needed: usize = entry.len() + FRAMING;
        if needed > self.config.max_buf {
            self.flush_buf(now);
            self.write_direct(entry);
            return Ok(());
        }
        if self.buf.len() > self.config.max_buf - needed {
            self.flush_buf(now);
        }
        let ghost before = self.buf@;
        frames::push_frame(&mut self.buf, entry);
        proof {
            lemma_push(before, entry@);
            let s = old(self).state().settled(self.config, now);
            assert(self.state().waiting =~= old(self).state().appended(self.config, entry@, now).waiting);
        }
        Ok(())
    }

    /// Sends what waits to the file.
    pub fn sync(&mut self, now: Duration)
        requires
            old(self).wf(),
        ensures
            final(self).wf(),
            final(self).settings() == old(self).settings(),
            final(self).state() == old(self).state().flushed(now),
            final(self).state().waiting.len() == 0,
            final(self).bytes() == frames::frames(old(self).entries()),
            final(self).state().written == old(self).state().written + old(self).state().waiting,
            final(self).state().last_flush == (if old(self).state().waiting.len() > 0 {
                now
            } else {
                old(self).state().last_flush
            }),
    {
        self.flush_buf(now);
        assert(self.entries() =~= self.state().written);
    }

    /// Sends what waits to the file where it has waited as long as `linger` says. Gives whether
    /// it did.
    pub fn flush_if_stale(&mut self, now: Duration) -> (r: bool)
        requires
            old(self).wf(),
        ensures
            final(self).wf(),
            final(self).settings() == old(self).settings(),
            r == old(self).state().stale(old(self).settings(), now),
            final(self).state() == old(self).state().settled(old(self).settings(), now),
            forall|n: int| old(self).has_room(n) ==> final(self).has_room(n),
            // Where something waits and `linger` has gone by, all of it is in the file.
            old(self).state().waiting.len() > 0 && (old(self).settings().linger matches Some(d) && (d.nanos == 0 || now.nanos
                >= old(self).state().last_flush.nanos + d.nanos)) ==> {
                &&& r
                &&& final(self).state().written == old(self).state().written + old(self).state().waiting
                &&& final(self).state().waiting.len() == 0
                &&& final(self).state().last_flush == now
            },
            // Otherwise nothing moves.
            old(self).state().waiting.len() == 0 || !(old(self).settings().linger matches Some(d) && (d.nanos == 0
                || now.nanos >= old(self).state().last_flush.nanos + d.nanos)) ==> !r && *final(self) == *old(self),
    {
        proof {
            lemma_nothing(self.buf@);
        }
        match self.config.linger {
            Some(linger) => {
                let waited: u128 = if self.last_flush.nanos <= now.nanos {
                    now.nanos - self.last_flush.nanos
                } else {
                    0
                };
                if self.buf.len() > 0 && waited >= linger.nanos {
                    self.flush_buf(now);
                    return true;
                }
            },
            None => {},
        }
        false
    }

    fn flush_buf(&mut self, now: Duration)
        requires
            old(self).wf(),
        ensures
            final(self).wf(),
            final(self).settings() == old(self).settings(),
            final(self).state() == old(self).state().flushed(now),
            final(self).state().waiting.len() == 0,
            final(self).buf@.len() == 0,
            forall|n: int| old(self).has_room(n) ==> final(self).has_room(n),
    {
        proof {
            lemma_nothing(self.buf@);
        }
        if self.buf.len() == 0 {
            return;
        }
        proof {
            lemma_join(self.file@, self.buf@);
        }
        le::push_bytes(&mut self.file, &self.buf);
        self.buf.clear();
        self.last_flush = now;
        assert(frames::scan(self.buf@, 0) =~= Seq::empty());
        assert(frames::frames(Seq::empty()) =~= self.buf@);
    }

    /// Writes an entry straight to the file. When bytes last went from the buffer stays as it is.
    fn write_direct(&mut self, entry: &[u8])
        requires
            old(self).wf(),
            old(self).buf@.len() == 0,
            entry@.len() <= u32::MAX,
        ensures
            final(self).wf(),
            final(self).settings() == old(self).settings(),
            final(self).state() == (WalState {
                written: old(self).state().written.push(entry@),
                waiting: old(self).state().waiting,
                last_flush: old(self).state().last_flush,
            }),
    {
        proof {
            lemma_push(self.file@, entry@);
        }
        frames::push_frame(&mut self.file, entry);
    }

    /// Ends the log and reads its entries from the first on. What waits goes to the file first.
    pub fn into_iter(self) -> (r: WalIter)
        requires
            self.wf(),
        ensures
            r.wf(),
            r.rest() == self.entries(),
    {
        let mut w = self;
        let now = w.last_flush;
        w.flush_buf(now);
        let ghost all = w.state().written;
        assert(w.entries() =~= all);
        assert(w.entries() =~= self.entries());
        WalIter { file: w.file, pos: 0 }
    }

    /// The bytes that went to the file.
    pub fn image(&self) -> (r: &Vec<u8>)
        ensures
            r@ == self.bytes(),
    {
        &self.file
    }

    /// How many bytes wait.
    pub fn buffered(&self) -> (r: usize)
        requires
            self.wf(),
        ensures
            r == frames::frames(self.state().waiting).len(),
            r <= self.settings().max_buf,
    {
        self.buf.len()
    }
}

/// The file holds the frames of the entries that went to it, and nothing else.
pub proof fn file_is_the_frames_of_what_went_to_it(w: Wal)
    requires
        w.wf(),
    ensures
        w.bytes() == frames::frames(w.state().written),
{
}

/// What went to the file, opened again, holds the same entries; so does a file of which the last
/// entry was cut off, but for that entry.
pub proof fn reopen_reads_what_was_written(w: Wal, cut: Seq<u8>)
    requires
        w.wf(),
        !frames::whole_at(w.bytes() + cut, w.bytes().len() as int),
    ensures
        frames::scan(w.bytes() + cut, 0) == w.state().written,
{
    let b = w.file@ + cut;
    let rs = frames::scan(w.file@, 0);
    frames::lemma_scan_stands(w.file@, 0);
    assert(b.subrange(0, w.file@.len() as int) =~= w.file@);
    frames::lemma_scan(b, 0, rs, 0);
    assert(rs.take(0) =~= Seq::empty());
    assert(frames::frames(rs.take(0)).len() == 0);
    assert(rs.skip(0) =~= rs);
}

/// Reads the entries of a log one after the other.
pub struct WalIter {
    file: Vec<u8>,
    pos: usize,
}

impl WalIter {
    pub closed spec fn wf(&self) -> bool {
        self.pos <= self.file@.len()
    }

    /// The entries that are still to be read.
    pub closed spec fn rest(&self) -> Seq<Seq<u8>> {
        frames::scan(self.file@, self.pos as int)
    }

    /// Reads a file's bytes from the start. An entry that is cut off ends the reading.
    pub fn new(image: Vec<u8>) -> (r: WalIter)
        ensures
            r.wf(),
            r.rest() == frames::scan(image@, 0),
    {
        WalIter { file: image, pos: 0 }
    }

    /// The next entry, or `None` behind the last.
    pub fn next(&mut self) -> (r: Option<WalEntry>)
        requires
            old(self).wf(),
        ensures
            final(self).wf(),
            match r {
                Some(e) => old(self).rest().len() > 0 && e.data@ == old(self).rest()[0] && final(self).rest()
                    == old(self).rest().skip(1),
                None => old(self).rest().len() == 0 && *final(self) == *old(self),
            },
    {
        match frames::frame_end(&self.file, self.pos) {
            None => None,
            Some(end) => {
                let data = le::copy_range(&self.file, self.pos + FRAMING, end);
                self.pos = end;
                assert(old(self).rest().skip(1) =~= self.rest());
                Some(WalEntry { data })
            },
        }
    }
}

} // verus!
