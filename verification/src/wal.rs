//! The append-only write-ahead log.
//!
//! A record is, with every number in little-endian order:
//!
//!   [checksum: u64][seq: u64][op: u8][key_len: u32][key][val_len: u32][val]
//!
//! The checksum covers everything behind it. Replay stops at the first record
//! that fails its checksum, runs past the end or has an unknown op: that is the
//! normal shape of a write that a crash tore, and no error.

use vstd::prelude::*;
use crate::codec::{
    copy_range, framed, get_u32, get_u64, law_le_bytes_of_value, law_le_round_trip, le_bytes,
    lemma_framed_at, lemma_le_bytes_len, lemma_le_value_bound, lemma_limits, len_prefix, put_bytes,
    put_framed, put_u64, u32_at, u64_at, LEN_LIMIT,
};
use crate::hash::{fnv, fnv1a, fnv1a_range};
use crate::SeqNo;

verus! {

#[derive(Debug, Clone, Copy, PartialEq, Eq, Structural)]
pub enum Op {
    Put,
    Delete,
}

pub struct WalRecord {
    pub seq: SeqNo,
    pub op: Op,
    pub key: Vec<u8>,
    pub val: Vec<u8>,
}

/// A record as contracts speak of it.
#[verifier::ext_equal]
pub struct LogEntry {
    pub seq: u64,
    pub op: Op,
    pub key: Seq<u8>,
    pub val: Seq<u8>,
}

impl View for WalRecord {
    type V = LogEntry;

    open spec fn view(&self) -> LogEntry {
        LogEntry { seq: self.seq, op: self.op, key: self.key@, val: self.val@ }
    }
}

pub open spec fn log_entries(records: Seq<WalRecord>) -> Seq<LogEntry> {
    records.map_values(|r: WalRecord| r@)
}

pub open spec fn op_byte(op: Op) -> u8 {
    match op {
        Op::Put => 0,
        Op::Delete => 1,
    }
}

/// What a record's checksum covers.
pub open spec fn record_body(e: LogEntry) -> Seq<u8> {
    le_bytes(e.seq as nat, 8) + seq![op_byte(e.op)] + framed(e.key) + framed(e.val)
}

/// A record's bytes.
pub open spec fn record_bytes(e: LogEntry) -> Seq<u8> {
    le_bytes(fnv(record_body(e)) as nat, 8) + record_body(e)
}

/// Whether the record's lengths fit their prefixes.
pub open spec fn log_entry_fits(e: LogEntry) -> bool {
    e.key.len() < LEN_LIMIT && e.val.len() < LEN_LIMIT
}

/// The well-formed record of `s` at `pos` with the position behind it, if
/// there is one.
pub open spec fn record_at(s: Seq<u8>, pos: int) -> Option<(LogEntry, int)> {
    if pos + 21 > s.len() {
        None
    } else {
        let key_len = u32_at(s, pos + 17);
        if pos + 25 + key_len > s.len() {
            None
        } else {
            let val_len = u32_at(s, pos + 21 + key_len);
            let end = pos + 25 + key_len + val_len;
            if end > s.len() {
                None
            } else if fnv(s.subrange(pos + 8, end)) as nat != u64_at(s, pos) {
                None
            } else if s[pos + 16] > 1 {
                None
            } else {
                Some(
                    (
                        LogEntry {
                            seq: u64_at(s, pos + 8) as u64,
                            op: if s[pos + 16] == 0 { Op::Put } else { Op::Delete },
                            key: s.subrange(pos + 21, pos + 21 + key_len),
                            val: s.subrange(pos + 25 + key_len, end),
                        },
                        end,
                    ),
                )
            }
        }
    }
}

/// The records of `s` from `pos` on, up to the first place where there is none.
pub open spec fn replayed(s: Seq<u8>, pos: int) -> Seq<LogEntry>
    decreases s.len() - pos,
{
    match record_at(s, pos) {
        Some((e, next)) => seq![e] + replayed(s, next),
        None => Seq::empty(),
    }
}

/// Where the records of `s` from `pos` on end.
pub open spec fn replay_end(s: Seq<u8>, pos: int) -> int
    decreases s.len() - pos,
{
    match record_at(s, pos) {
        Some((_, next)) => replay_end(s, next),
        None => pos,
    }
}

/// Whether a log is made of whole records.
pub open spec fn intact(s: Seq<u8>) -> bool {
    replay_end(s, 0) == s.len()
}

/// A log of `entries`, one after the other.
pub open spec fn log_bytes(entries: Seq<LogEntry>) -> Seq<u8>
    decreases entries.len(),
{
    if entries.len() == 0 {
        Seq::empty()
    } else {
        log_bytes(entries.drop_last()) + record_bytes(entries.last())
    }
}

proof fn lemma_record_len(e: LogEntry)
    ensures
        record_body(e).len() == 17 + e.key.len() + e.val.len(),
        record_bytes(e).len() == 25 + e.key.len() + e.val.len(),
{
    lemma_le_bytes_len(e.seq as nat, 8);
    lemma_le_bytes_len(fnv(record_body(e)) as nat, 8);
    lemma_le_bytes_len(len_prefix(e.key.len()), 4);
    lemma_le_bytes_len(len_prefix(e.val.len()), 4);
}

/// Where a log holds the bytes of a record, the record is found.
#[verifier::rlimit(40)]
proof fn lemma_record_found(s: Seq<u8>, pos: int, e: LogEntry)
    requires
        0 <= pos,
        pos + record_bytes(e).len() <= s.len(),
        s.subrange(pos, pos + record_bytes(e).len()) == record_bytes(e),
        log_entry_fits(e),
    ensures
        record_at(s, pos) == Some((e, pos + record_bytes(e).len())),
{
    lemma_record_len(e);
    lemma_limits();
    let body = record_body(e);
    let all = record_bytes(e);
    let sum = fnv(body) as nat;
    lemma_le_bytes_len(sum, 8);
    law_le_round_trip(sum, 8);
    law_le_round_trip(e.seq as nat, 8);
    lemma_body_parts(e);
    let end = pos + all.len();
    let part = s.subrange(pos, end);
    let k = e.key.len() as int;
    assert(s.subrange(pos, pos + 8) =~= part.subrange(0, 8));
    assert(part.subrange(0, 8) =~= le_bytes(sum, 8));
    assert(s.subrange(pos + 8, end) =~= part.subrange(8, all.len() as int));
    assert(part.subrange(8, all.len() as int) =~= body);
    let tail = s.subrange(pos + 8, end);
    assert(tail == body);
    assert(s.subrange(pos + 8, pos + 16) =~= tail.subrange(0, 8));
    assert(s[pos + 16] == part[16]);
    assert(part[16] == body[8]);
    assert(s.subrange(pos + 17, pos + 17 + 4 + k) =~= tail.subrange(9, 13 + k));
    lemma_framed_at(s, pos + 17, e.key);
    assert(s.subrange(pos + 21 + k, end) =~= tail.subrange(13 + k, body.len() as int));
    lemma_framed_at(s, pos + 21 + k, e.val);
}

/// A record depends on its own bytes alone.
proof fn lemma_record_local(s: Seq<u8>, t: Seq<u8>, pos: int)
    requires
        0 <= pos,
        record_at(s, pos) is Some,
        (record_at(s, pos)->0).1 <= t.len(),
        s.subrange(pos, (record_at(s, pos)->0).1) == t.subrange(pos, (record_at(s, pos)->0).1),
    ensures
        record_at(t, pos) == record_at(s, pos),
{
    let end = (record_at(s, pos)->0).1;
    let part = s.subrange(pos, end);
    assert forall|i: int, j: int| pos <= i <= j <= end implies #[trigger] s.subrange(i, j)
        == #[trigger] t.subrange(i, j) by {
        assert(s.subrange(i, j) =~= part.subrange(i - pos, j - pos));
        assert(t.subrange(i, j) =~= part.subrange(i - pos, j - pos));
    }
    assert(s[pos + 16] == part[16]);
    assert(t[pos + 16] == part[16]);
    let key_len = u32_at(s, pos + 17);
    assert(u32_at(t, pos + 17) == key_len);
    assert(u32_at(t, pos + 21 + key_len) == u32_at(s, pos + 21 + key_len));
    assert(u64_at(t, pos) == u64_at(s, pos));
    assert(u64_at(t, pos + 8) == u64_at(s, pos + 8));
}

proof fn lemma_replay_end_bounds(s: Seq<u8>, pos: int)
    requires
        0 <= pos <= s.len(),
    ensures
        pos <= replay_end(s, pos) <= s.len(),
        record_at(s, replay_end(s, pos)) is None,
    decreases s.len() - pos,
{
    if let Some((_, next)) = record_at(s, pos) {
        lemma_replay_end_bounds(s, next);
    }
}

/// Two logs that agree up to where the records of the first end replay alike
/// up to there.
proof fn lemma_replay_shared(s: Seq<u8>, t: Seq<u8>, pos: int)
    requires
        0 <= pos <= s.len(),
        replay_end(s, pos) <= t.len(),
        s.subrange(pos, replay_end(s, pos)) == t.subrange(pos, replay_end(s, pos)),
    ensures
        replayed(t, pos) == replayed(s, pos) + replayed(t, replay_end(s, pos)),
        replay_end(t, pos) == replay_end(t, replay_end(s, pos)),
    decreases s.len() - pos,
{
    lemma_replay_end_bounds(s, pos);
    let end = replay_end(s, pos);
    match record_at(s, pos) {
        Some((e, next)) => {
            lemma_replay_end_bounds(s, next);
            let part = s.subrange(pos, end);
            assert(s.subrange(pos, next) =~= part.subrange(0, next - pos));
            assert(t.subrange(pos, next) =~= part.subrange(0, next - pos));
            lemma_record_local(s, t, pos);
            assert(s.subrange(next, end) =~= part.subrange(next - pos, end - pos));
            assert(t.subrange(next, end) =~= part.subrange(next - pos, end - pos));
            lemma_replay_shared(s, t, next);
            assert(replayed(t, pos) =~= replayed(s, pos) + replayed(t, end));
        },
        None => {
            assert(replayed(t, pos) =~= replayed(s, pos) + replayed(t, end));
        },
    }
}

/// What was appended to an intact log is replayed behind what was there, and
/// the log stays intact.
pub proof fn law_replay_after_append(log: Seq<u8>, e: LogEntry)
    requires
        intact(log),
        log_entry_fits(e),
    ensures
        replayed(log + record_bytes(e), 0) == replayed(log, 0).push(e),
        intact(log + record_bytes(e)),
{
    let longer = log + record_bytes(e);
    let n = log.len() as int;
    assert(log.subrange(0, n) =~= longer.subrange(0, n));
    lemma_replay_shared(log, longer, 0);
    assert(longer.subrange(n, n + record_bytes(e).len()) =~= record_bytes(e));
    lemma_record_found(longer, n, e);
    let end = longer.len() as int;
    assert(record_at(longer, end) is None);
    assert(replayed(longer, end) =~= Seq::<LogEntry>::empty());
    assert(replayed(longer, n) =~= seq![e]);
    assert(replayed(longer, 0) =~= replayed(log, 0).push(e));
    assert(replay_end(longer, end) == end);
    assert(replay_end(longer, n) == end);
}

/// Replaying a log gives back every record that was written to it, in order.
pub proof fn law_replay_round_trip(entries: Seq<LogEntry>)
    requires
        forall|i: int| 0 <= i < entries.len() ==> log_entry_fits(#[trigger] entries[i]),
    ensures
        replayed(log_bytes(entries), 0) == entries,
        intact(log_bytes(entries)),
    decreases entries.len(),
{
    if entries.len() == 0 {
        assert(replayed(log_bytes(entries), 0) =~= entries);
    } else {
        assert forall|i: int| 0 <= i < entries.drop_last().len() implies log_entry_fits(
            #[trigger] entries.drop_last()[i],
        ) by {
            assert(entries.drop_last()[i] == entries[i]);
        }
        law_replay_round_trip(entries.drop_last());
        law_replay_after_append(log_bytes(entries.drop_last()), entries.last());
        assert(entries =~= entries.drop_last().push(entries.last()));
    }
}

/// A write that a crash tore takes nothing else with it: an intact log with
/// only the beginning of one more record replays as it did without it.
pub proof fn law_torn_record_is_dropped(log: Seq<u8>, e: LogEntry, n: int)
    requires
        intact(log),
        log_entry_fits(e),
        0 <= n < record_bytes(e).len(),
    ensures
        replayed(log + record_bytes(e).take(n), 0) == replayed(log, 0),
        replay_end(log + record_bytes(e).take(n), 0) == log.len(),
{
    let torn = log + record_bytes(e).take(n);
    let whole = log + record_bytes(e);
    let start = log.len() as int;
    assert(log.subrange(0, start) =~= torn.subrange(0, start));
    lemma_replay_shared(log, torn, 0);
    assert(whole.subrange(start, start + record_bytes(e).len()) =~= record_bytes(e));
    lemma_record_found(whole, start, e);
    if let Some((_, next)) = record_at(torn, start) {
        assert(torn.subrange(start, next) =~= whole.subrange(start, next));
        lemma_record_local(torn, whole, start);
        assert(false);
    }
    assert(replayed(torn, 0) =~= replayed(log, 0));
}

/// However a log is cut short, what is left of it replays to a beginning of
/// what the whole log replays to: no record is made up, changed or reordered.
pub proof fn law_replay_of_a_cut_log(log: Seq<u8>, n: int)
    requires
        0 <= n <= log.len(),
    ensures
        replayed(log.take(n), 0).len() <= replayed(log, 0).len(),
        replayed(log.take(n), 0) == replayed(log, 0).take(replayed(log.take(n), 0).len() as int),
{
    let cut = log.take(n);
    lemma_replay_end_bounds(cut, 0);
    let end = replay_end(cut, 0);
    assert(cut.subrange(0, end) =~= log.subrange(0, end));
    lemma_replay_shared(cut, log, 0);
    assert(replayed(cut, 0) =~= replayed(log, 0).take(replayed(cut, 0).len() as int));
}

/// Whole records at the start of a log are replayed whatever stands behind
/// them: damage takes nothing with it that was written before it.
pub proof fn law_damage_spares_what_is_before_it(log: Seq<u8>, rest: Seq<u8>)
    requires
        intact(log),
    ensures
        replayed(log + rest, 0) == replayed(log, 0) + replayed(log + rest, log.len() as int),
{
    let longer = log + rest;
    let n = log.len() as int;
    assert(log.subrange(0, n) =~= longer.subrange(0, n));
    lemma_replay_shared(log, longer, 0);
}

/// The log's write buffer: what was appended and not handed on yet.
pub struct Wal {
    buffered: Vec<u8>,
}

impl View for Wal {
    type V = Seq<u8>;

    closed spec fn view(&self) -> Seq<u8> {
        self.buffered@
    }
}

impl Wal {
    /// A log with nothing buffered.
    pub fn new() -> (r: Self)
        ensures
            r@ == Seq::<u8>::empty(),
    {
        Wal { buffered: Vec::new() }
    }

    /// Buffers one record.
    pub fn append(&mut self, seq: SeqNo, op: Op, key: &[u8], val: &[u8])
        ensures
            final(self)@ == old(self)@ + record_bytes(LogEntry { seq, op, key: key@, val: val@ }),
    {
        let ghost e = LogEntry { seq, op, key: key@, val: val@ };
        let mut body: Vec<u8> = Vec::new();
        put_u64(&mut body, seq);
        let byte: u8 = match op {
            Op::Put => 0,
            Op::Delete => 1,
        };
        body.push(byte);
        put_framed(&mut body, key);
        put_framed(&mut body, val);
        assert(body@ =~= record_body(e));
        let checksum: u64 = fnv1a(body.as_slice());
        put_u64(&mut self.buffered, checksum);
        put_bytes(&mut self.buffered, body.as_slice());
        assert(self@ =~= old(self)@ + record_bytes(e));
    }

    /// Hands on what was buffered, for the caller to write and sync. How often
    /// to do so is the caller's choice between latency and durability.
    pub fn take_buffered(&mut self) -> (r: Vec<u8>)
        ensures
            r@ == old(self)@,
            final(self)@ == Seq::<u8>::empty(),
    {
        let mut out: Vec<u8> = Vec::new();
        std::mem::swap(&mut out, &mut self.buffered);
        out
    }
}

/// The record of `log` at `pos` with the position behind it, if there is a
/// well-formed one.
fn read_log_record(log: &[u8], pos: usize) -> (r: Option<(WalRecord, usize)>)
    requires
        pos <= log@.len(),
    ensures
        match r {
            Some((rec, next)) => record_at(log@, pos as int) == Some((rec@, next as int)),
            None => record_at(log@, pos as int) is None,
        },
{
    let len: usize = log.len();
    if len - pos < 21 {
        return None;
    }
    let key_len: u32 = get_u32(log, pos + 17);
    let behind_head: usize = len - pos - 21;
    if behind_head < 4 || behind_head - 4 < key_len as usize {
        return None;
    }
    let val_at: usize = pos + 21 + key_len as usize;
    let val_len: u32 = get_u32(log, val_at);
    if len - val_at - 4 < val_len as usize {
        return None;
    }
    let end: usize = val_at + 4 + val_len as usize;
    let expected: u64 = get_u64(log, pos);
    if fnv1a_range(log, pos + 8, end) != expected {
        return None;
    }
    let op: Op = match log[pos + 16] {
        0 => Op::Put,
        1 => Op::Delete,
        _ => return None,
    };
    let seq: u64 = get_u64(log, pos + 8);
    let key: Vec<u8> = copy_range(log, pos + 21, val_at);
    let val: Vec<u8> = copy_range(log, val_at + 4, end);
    Some((WalRecord { seq, op, key, val }, end))
}

/// Every well-formed record up to the first place where there is none, and the
/// length of the part of the log that holds them.
pub fn replay_intact(log: &[u8]) -> (r: (Vec<WalRecord>, usize))
    ensures
        log_entries(r.0@) == replayed(log@, 0),
        r.1 == replay_end(log@, 0),
        r.1 <= log@.len(),
{
    let mut out: Vec<WalRecord> = Vec::new();
    let mut pos: usize = 0;
    assert(log_entries(out@) =~= Seq::<LogEntry>::empty());
    assert(Seq::<LogEntry>::empty() + replayed(log@, 0) =~= replayed(log@, 0));
    loop
        invariant
            pos <= log@.len(),
            log_entries(out@) + replayed(log@, pos as int) == replayed(log@, 0),
            replay_end(log@, pos as int) == replay_end(log@, 0),
        decreases log@.len() - pos,
    {
        match read_log_record(log, pos) {
            Some((rec, next)) => {
                let ghost before = out@;
                out.push(rec);
                proof {
                    assert(log_entries(out@) =~= log_entries(before).push(rec@));
                    assert(log_entries(out@) + replayed(log@, next as int) =~= log_entries(before)
                        + replayed(log@, pos as int));
                }
                pos = next;
            },
            None => {
                assert(log_entries(out@) + replayed(log@, pos as int) =~= log_entries(out@));
                return (out, pos);
            },
        }
    }
}

/// Every well-formed record of a log, up to the first short read, bad checksum
/// or unknown op.
pub fn replay(log: &[u8]) -> (r: Vec<WalRecord>)
    ensures
        log_entries(r@) == replayed(log@, 0),
{
    let (records, _) = replay_intact(log);
    records
}

/// The parts of a record behind its checksum.
proof fn lemma_body_parts(e: LogEntry)
    ensures
        ({
            let body = record_body(e);
            let k = e.key.len() as int;
            &&& body.len() == 17 + k + e.val.len()
            &&& body.subrange(0, 8) == le_bytes(e.seq as nat, 8)
            &&& body[8] == op_byte(e.op)
            &&& body.subrange(9, 13 + k) == framed(e.key)
            &&& body.subrange(13 + k, body.len() as int) == framed(e.val)
        }),
{
    let body = record_body(e);
    let k = e.key.len() as int;
    lemma_le_bytes_len(e.seq as nat, 8);
    lemma_le_bytes_len(len_prefix(e.key.len()), 4);
    lemma_le_bytes_len(len_prefix(e.val.len()), 4);
    assert(body.subrange(0, 8) =~= le_bytes(e.seq as nat, 8));
    assert(body.subrange(9, 13 + k) =~= framed(e.key));
    assert(body.subrange(13 + k, body.len() as int) =~= framed(e.val));
}

/// Where a log record's parts stand: the checksum of all that follows it, the
/// sequence number, the operation, and the key and the value behind their lengths.
#[verifier::rlimit(40)]
pub proof fn law_log_record_layout(e: LogEntry)
    requires
        e.key.len() < 0x1_0000_0000,
        e.val.len() < 0x1_0000_0000,
    ensures
        ({
            let r = record_bytes(e);
            let k = e.key.len() as int;
            let v = e.val.len() as int;
            &&& r.len() == 25 + k + v
            &&& u64_at(r, 0) == fnv(r.skip(8))
            &&& u64_at(r, 8) == e.seq
            &&& r[16] == if e.op is Put {
                0u8
            } else {
                1u8
            }
            &&& u32_at(r, 17) == k
            &&& r.subrange(21, 21 + k) == e.key
            &&& u32_at(r, 21 + k) == v
            &&& r.subrange(25 + k, 25 + k + v) == e.val
        }),
{
    let r = record_bytes(e);
    let body = record_body(e);
    let sum = fnv(body) as nat;
    let k = e.key.len() as int;
    lemma_record_len(e);
    lemma_body_parts(e);
    lemma_limits();
    lemma_le_bytes_len(sum, 8);
    law_le_round_trip(sum, 8);
    law_le_round_trip(e.seq as nat, 8);
    assert(r.subrange(0, 8) =~= le_bytes(sum, 8));
    assert(r.skip(8) =~= body);
    assert(r.subrange(8, 16) =~= r.skip(8).subrange(0, 8));
    assert(r[16] == r.skip(8)[8]);
    assert(r.subrange(17, 21 + k) =~= r.skip(8).subrange(9, 13 + k));
    lemma_framed_at(r, 17, e.key);
    assert(r.subrange(21 + k, r.len() as int) =~= r.skip(8).subrange(13 + k, body.len() as int));
    lemma_framed_at(r, 21 + k, e.val);
}

/// A record is found exactly where its bytes stand: with its checksum right, its
/// operation known, and all of it there.
pub proof fn law_record_is_found_where_its_bytes_are(s: Seq<u8>, pos: int, e: LogEntry, end: int)
    requires
        0 <= pos <= s.len(),
    ensures
        record_at(s, pos) == Some((e, end)) <==> {
            &&& e.key.len() < 0x1_0000_0000
            &&& e.val.len() < 0x1_0000_0000
            &&& end == pos + record_bytes(e).len()
            &&& end <= s.len()
            &&& s.subrange(pos, end) == record_bytes(e)
        },
{
    lemma_record_len(e);
    if record_at(s, pos) == Some((e, end)) {
        lemma_limits();
        let k = u32_at(s, pos + 17) as int;
        let v = u32_at(s, pos + 21 + k) as int;
        lemma_le_value_bound(s.subrange(pos, pos + 8));
        lemma_le_value_bound(s.subrange(pos + 8, pos + 16));
        lemma_le_value_bound(s.subrange(pos + 17, pos + 21));
        lemma_le_value_bound(s.subrange(pos + 21 + k, pos + 25 + k));
        law_le_bytes_of_value(s.subrange(pos, pos + 8));
        law_le_bytes_of_value(s.subrange(pos + 8, pos + 16));
        law_le_bytes_of_value(s.subrange(pos + 17, pos + 21));
        law_le_bytes_of_value(s.subrange(pos + 21 + k, pos + 25 + k));
        let body = s.subrange(pos + 8, end);
        assert(framed(e.key) =~= s.subrange(pos + 17, pos + 21 + k));
        assert(framed(e.val) =~= s.subrange(pos + 21 + k, end));
        assert(record_body(e) =~= body);
        assert(record_bytes(e) =~= s.subrange(pos, end));
    }
    if e.key.len() < 0x1_0000_0000 && e.val.len() < 0x1_0000_0000 && end == pos + record_bytes(
        e,
    ).len() && end <= s.len() && s.subrange(pos, end) == record_bytes(e) {
        lemma_record_found(s, pos, e);
    }
}

/// Replay gives the records that a log begins with, all of them: their bytes one
/// behind the other are the beginning of the log, and no record stands behind
/// them.
pub proof fn law_replay_gives_the_whole_beginning(s: Seq<u8>)
    ensures
        0 <= replay_end(s, 0) <= s.len(),
        log_bytes(replayed(s, 0)) == s.take(replay_end(s, 0)),
        forall|e: LogEntry, end: int|
            !(e.key.len() < 0x1_0000_0000 && e.val.len() < 0x1_0000_0000 && end <= s.len()
                && replay_end(s, 0) <= end && #[trigger] s.subrange(replay_end(s, 0), end)
                == #[trigger] record_bytes(e)),
{
    lemma_replay_end_bounds(s, 0);
    lemma_replayed_bytes(s, 0);
    assert(s.subrange(0, replay_end(s, 0)) =~= s.take(replay_end(s, 0)));
    let at = replay_end(s, 0);
    assert forall|e: LogEntry, end: int|
        !(e.key.len() < 0x1_0000_0000 && e.val.len() < 0x1_0000_0000 && end <= s.len() && at <= end
            && #[trigger] s.subrange(at, end) == #[trigger] record_bytes(e)) by {
        if e.key.len() < 0x1_0000_0000 && e.val.len() < 0x1_0000_0000 && end <= s.len() && at
            <= end && s.subrange(at, end) == record_bytes(e) {
            law_record_is_found_where_its_bytes_are(s, at, e, end);
        }
    }
}

proof fn lemma_log_front(e: LogEntry, rest: Seq<LogEntry>)
    ensures
        log_bytes(seq![e] + rest) == record_bytes(e) + log_bytes(rest),
    decreases rest.len(),
{
    let all = seq![e] + rest;
    if rest.len() == 0 {
        assert(all.drop_last() =~= Seq::<LogEntry>::empty());
        assert(log_bytes(all.drop_last()) =~= Seq::<u8>::empty());
        assert(log_bytes(rest) =~= Seq::<u8>::empty());
        assert(all.last() == e);
        assert(log_bytes(all) =~= record_bytes(e) + log_bytes(rest));
    } else {
        lemma_log_front(e, rest.drop_last());
        assert(all.drop_last() =~= seq![e] + rest.drop_last());
        assert(all.last() == rest.last());
        assert(log_bytes(all) =~= record_bytes(e) + log_bytes(rest));
    }
}

proof fn lemma_replayed_bytes(s: Seq<u8>, pos: int)
    requires
        0 <= pos <= s.len(),
    ensures
        pos <= replay_end(s, pos) <= s.len(),
        log_bytes(replayed(s, pos)) == s.subrange(pos, replay_end(s, pos)),
    decreases s.len() - pos,
{
    lemma_replay_end_bounds(s, pos);
    match record_at(s, pos) {
        Some((e, next)) => {
            law_record_is_found_where_its_bytes_are(s, pos, e, next);
            lemma_record_len(e);
            lemma_replayed_bytes(s, next);
            lemma_log_front(e, replayed(s, next));
            assert(log_bytes(replayed(s, pos)) =~= s.subrange(pos, replay_end(s, pos)));
        },
        None => {
            assert(log_bytes(replayed(s, pos)) =~= s.subrange(pos, pos));
        },
    }
}

/// A log of records is their bytes one behind the other.
pub proof fn law_log_is_its_records(entries: Seq<LogEntry>, e: LogEntry)
    ensures
        log_bytes(Seq::<LogEntry>::empty()) == Seq::<u8>::empty(),
        log_bytes(entries.push(e)) == log_bytes(entries) + record_bytes(e),
        e.key.len() < 0x1_0000_0000 && e.val.len() < 0x1_0000_0000 ==> log_entry_fits(e),
{
    assert(entries.push(e).drop_last() =~= entries);
}

/// The records that a replay returns are read field by field.
pub proof fn law_records_are_read_field_by_field(records: Seq<WalRecord>, i: int)
    requires
        0 <= i < records.len(),
    ensures
        log_entries(records).len() == records.len(),
        log_entries(records)[i].seq == records[i].seq,
        log_entries(records)[i].op == records[i].op,
        log_entries(records)[i].key == records[i].key@,
        log_entries(records)[i].val == records[i].val@,
{
}

} // verus!
