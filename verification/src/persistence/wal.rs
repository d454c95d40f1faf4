//! The write-ahead log's on-disk format: a five-byte header (`"DCWL"` and a
//! version byte), then records `[CRC32 of data, 4 bytes LE][data length, 4
//! bytes LE][data]`. Reading starts after the header and stops at the end of
//! the file, at the first record whose checksum does not match, or with an
//! error at a record cut short.

use crate::clock::unix_secs_of;
use crate::storage::engine::{
    expired_at, expiry, lemma_fresh_value_live, removed, written, CacheValue, CacheValueView, StorageEngine, StoreView,
};
use std::time::SystemTime;
use vstd::bytes::{lemma_auto_spec_u32_to_from_le_bytes, spec_u32_from_le_bytes, spec_u32_to_le_bytes, u32_from_le_bytes, u32_to_le_bytes};
use vstd::prelude::*;
use vstd::slice::slice_subrange;

verus! {

/// The CRC-32 (IEEE) checksum of a byte sequence.
pub uninterp spec fn spec_crc32(data: Seq<u8>) -> u32;

/// Calls `crc32fast::Hasher` (`new`, `update`, `finalize`). Claimed: the
/// checksum is `spec_crc32` of the bytes.
#[verifier::external_body]
fn crc32(data: &[u8]) -> (c: u32)
    ensures
        c == spec_crc32(data@),
{
    let mut hasher = crc32fast::Hasher::new();
    hasher.update(data);
    hasher.finalize()
}

/// The log's header: the magic `"DCWL"` and version 1.
pub open spec fn header_bytes() -> Seq<u8> {
    seq![0x44u8, 0x43u8, 0x57u8, 0x4cu8, 1u8]
}

/// Where the first record starts.
pub const RECORDS_START: usize = 5;

/// The header a new log file starts with.
pub fn wal_header() -> (r: Vec<u8>)
    ensures
        r@ == header_bytes(),
{
    let mut h: Vec<u8> = Vec::new();
    h.push(0x44);
    h.push(0x43);
    h.push(0x57);
    h.push(0x4c);
    h.push(1);
    assert(h@ =~= header_bytes());
    h
}

/// The record holding `data`: its checksum and its length (cut to 32 bits),
/// little-endian, then the data.
pub open spec fn record_bytes(data: Seq<u8>) -> Seq<u8> {
    spec_u32_to_le_bytes(spec_crc32(data)) + spec_u32_to_le_bytes(data.len() as u32) + data
}

/// Frames `data` as a log record.
pub fn encode_record(data: &[u8]) -> (r: Vec<u8>)
    ensures
        r@ == record_bytes(data@),
{
    let checksum = crc32(data);
    let len = data.len() as u32;
    let mut out = u32_to_le_bytes(checksum);
    let mut len_bytes = u32_to_le_bytes(len);
    out.append(&mut len_bytes);
    let mut i: usize = 0;
    let ghost head = out@;
    while i < data.len()
        invariant
            i <= data@.len(),
            out@ == head + data@.take(i as int),
        decreases data@.len() - i,
    {
        out.push(data[i]);
        assert(out@ =~= head + data@.take(i + 1));
        i = i + 1;
    }
    assert(data@.take(data@.len() as int) =~= data@);
    out
}

/// What is found at a position of the log.
pub enum FrameView {
    /// A record with its data, and where the next record starts.
    Record(Seq<u8>, nat),
    /// Fewer than four bytes left: the end of the log.
    End,
    /// A record whose checksum does not match its data: reading stops.
    Corrupt,
    /// A record cut short: reading fails.
    Truncated,
}

/// What is found at position `pos` of the log bytes `b`.
pub open spec fn frame_at(b: Seq<u8>, pos: nat) -> FrameView {
    let p = pos as int;
    if p + 4 > b.len() {
        FrameView::End
    } else if p + 8 > b.len() {
        FrameView::Truncated
    } else {
        let n = spec_u32_from_le_bytes(b.subrange(p + 4, p + 8)) as int;
        if p + 8 + n > b.len() {
            FrameView::Truncated
        } else {
            let data = b.subrange(p + 8, p + 8 + n);
            if spec_crc32(data) != spec_u32_from_le_bytes(b.subrange(p, p + 4)) {
                FrameView::Corrupt
            } else {
                FrameView::Record(data, (p + 8 + n) as nat)
            }
        }
    }
}

pub enum WalFrame {
    Record { data: Vec<u8>, next: usize },
    End,
    Corrupt,
    Truncated,
}

impl View for WalFrame {
    type V = FrameView;

    open spec fn view(&self) -> FrameView {
        match self {
            WalFrame::Record { data, next } => FrameView::Record(data@, *next as nat),
            WalFrame::End => FrameView::End,
            WalFrame::Corrupt => FrameView::Corrupt,
            WalFrame::Truncated => FrameView::Truncated,
        }
    }
}

/// Reads what is at position `pos` of the log bytes.
pub fn read_frame(bytes: &[u8], pos: usize) -> (r: WalFrame)
    ensures
        r@ == frame_at(bytes@, pos as nat),
{
    let len = bytes.len();
    if pos > len || len - pos < 4 {
        return WalFrame::End;
    }
    if len - pos < 8 {
        return WalFrame::Truncated;
    }
    let n = u32_from_le_bytes(slice_subrange(bytes, pos + 4, pos + 8));
    if ((len - pos - 8) as u64) < (n as u64) {
        return WalFrame::Truncated;
    }
    let end = pos + 8 + (n as usize);
    let data = slice_subrange(bytes, pos + 8, end);
    let stored = u32_from_le_bytes(slice_subrange(bytes, pos, pos + 4));
    if crc32(data) != stored {
        return WalFrame::Corrupt;
    }
    let mut out: Vec<u8> = Vec::new();
    let mut i: usize = 0;
    while i < data.len()
        invariant
            i <= data@.len(),
            out@ == data@.take(i as int),
        decreases data@.len() - i,
    {
        out.push(data[i]);
        assert(out@ =~= data@.take(i + 1));
        i = i + 1;
    }
    assert(data@.take(data@.len() as int) =~= data@);
    WalFrame::Record { data: out, next: end }
}

/// The data of the records read in turn from position `pos`, and what
/// stopped the reading (`End`, `Corrupt` or `Truncated`).
pub open spec fn records_from(b: Seq<u8>, pos: nat) -> (Seq<Seq<u8>>, FrameView)
    decreases b.len() - pos,
{
    match frame_at(b, pos) {
        FrameView::Record(d, next) => {
            if next > pos && next <= b.len() {
                let (rest, stop) = records_from(b, next);
                (seq![d] + rest, stop)
            } else {
                (Seq::empty(), FrameView::End)
            }
        },
        other => (Seq::empty(), other),
    }
}

/// The records holding each of `ps`, one after the other.
pub open spec fn all_records(ps: Seq<Seq<u8>>) -> Seq<u8>
    decreases ps.len(),
{
    if ps.len() == 0 {
        Seq::empty()
    } else {
        record_bytes(ps[0]) + all_records(ps.drop_first())
    }
}

/// Law: a log made of the header and the records of `ps` (each shorter than
/// 2^32 bytes) reads back as exactly `ps`, and the reading ends cleanly.
pub proof fn lemma_log_reads_back(ps: Seq<Seq<u8>>)
    requires
        forall|i: int| 0 <= i < ps.len() ==> (#[trigger] ps[i]).len() <= u32::MAX,
    ensures
        records_from(header_bytes() + all_records(ps), RECORDS_START as nat) == (ps, FrameView::End),
{
    lemma_records_read_back(header_bytes(), ps);
}

/// Records written after any prefix read back from the prefix's end.
proof fn lemma_records_read_back(prefix: Seq<u8>, ps: Seq<Seq<u8>>)
    requires
        forall|i: int| 0 <= i < ps.len() ==> (#[trigger] ps[i]).len() <= u32::MAX,
    ensures
        records_from(prefix + all_records(ps), prefix.len()) == (ps, FrameView::End),
    decreases ps.len(),
{
    let b = prefix + all_records(ps);
    let pos = prefix.len() as int;
    if ps.len() == 0 {
        assert(b =~= prefix);
        assert(ps =~= Seq::<Seq<u8>>::empty());
    } else {
        lemma_auto_spec_u32_to_from_le_bytes();
        let d = ps[0];
        let rest = ps.drop_first();
        assert(d.len() <= u32::MAX);
        let rb = record_bytes(d);
        let prefix2 = prefix + rb;
        assert(b =~= prefix2 + all_records(rest));
        let crc_b = spec_u32_to_le_bytes(spec_crc32(d));
        let len_b = spec_u32_to_le_bytes(d.len() as u32);
        assert(crc_b.len() == 4);
        assert(len_b.len() == 4);
        assert(b.subrange(pos + 4, pos + 8) =~= len_b);
        assert((d.len() as u32) as int == d.len());
        assert(b.subrange(pos + 8, pos + 8 + d.len() as int) =~= d);
        assert(b.subrange(pos, pos + 4) =~= crc_b);
        assert(frame_at(b, pos as nat) == FrameView::Record(d, prefix2.len()));
        assert forall|i: int| 0 <= i < rest.len() implies (#[trigger] rest[i]).len() <= u32::MAX by {
            assert(rest[i] == ps[i + 1]);
        }
        lemma_records_read_back(prefix2, rest);
        assert(ps =~= seq![d] + rest);
    }
}

/// Why reading the log stopped.
pub enum WalStop {
    /// Fewer than four bytes were left.
    End,
    /// A record's checksum did not match its data.
    Corrupt,
    /// A record was cut short.
    Truncated,
}

impl View for WalStop {
    type V = FrameView;

    open spec fn view(&self) -> FrameView {
        match self {
            WalStop::End => FrameView::End,
            WalStop::Corrupt => FrameView::Corrupt,
            WalStop::Truncated => FrameView::Truncated,
        }
    }
}

/// The data of each of a list of byte vectors.
pub open spec fn byte_views(v: Seq<Vec<u8>>) -> Seq<Seq<u8>> {
    v.map_values(|b: Vec<u8>| b@)
}

/// Reads the log's records in turn from just after the header: their data,
/// and why reading stopped.
pub fn read_records(bytes: &[u8]) -> (r: (Vec<Vec<u8>>, WalStop))
    ensures
        (byte_views(r.0@), r.1@) == records_from(bytes@, RECORDS_START as nat),
{
    let ghost b = bytes@;
    let ghost whole = records_from(b, RECORDS_START as nat);
    let mut out: Vec<Vec<u8>> = Vec::new();
    let mut pos: usize = RECORDS_START;
    loop
        invariant
            b == bytes@,
            whole == records_from(b, RECORDS_START as nat),
            pos <= b.len() + RECORDS_START,
            whole.0 == byte_views(out@) + records_from(b, pos as nat).0,
            whole.1 == records_from(b, pos as nat).1,
        decreases b.len() + RECORDS_START - pos,
    {
        match read_frame(bytes, pos) {
            WalFrame::Record { data, next } => {
                if next > pos && next <= bytes.len() {
                    let ghost rest = records_from(b, next as nat);
                    proof {
                        assert(byte_views(out@.push(data)) =~= byte_views(out@).push(data@));
                        assert(byte_views(out@) + (seq![data@] + rest.0) =~= byte_views(out@).push(data@) + rest.0);
                    }
                    out.push(data);
                    pos = next;
                } else {
                    proof {
                        assert(byte_views(out@) + Seq::<Seq<u8>>::empty() =~= byte_views(out@));
                    }
                    return (out, WalStop::End);
                }
            },
            WalFrame::End => {
                assert(byte_views(out@) + Seq::<Seq<u8>>::empty() =~= byte_views(out@));
                return (out, WalStop::End);
            },
            WalFrame::Corrupt => {
                assert(byte_views(out@) + Seq::<Seq<u8>>::empty() =~= byte_views(out@));
                return (out, WalStop::Corrupt);
            },
            WalFrame::Truncated => {
                assert(byte_views(out@) + Seq::<Seq<u8>>::empty() =~= byte_views(out@));
                return (out, WalStop::Truncated);
            },
        }
    }
}

/// An operation as the log records it.
#[derive(Debug, Clone)]
pub enum WalEntry {
    Put { key: String, value: Vec<u8>, ttl_secs: Option<u64> },
    Delete { key: String },
    Checkpoint { timestamp: u64 },
}

/// What a log entry holds.
pub enum WalEntryView {
    Put(Seq<char>, Seq<u8>, Option<u64>),
    Delete(Seq<char>),
    Checkpoint(u64),
}

impl View for WalEntry {
    type V = WalEntryView;

    open spec fn view(&self) -> WalEntryView {
        match self {
            WalEntry::Put { key, value, ttl_secs } => WalEntryView::Put(key@, value@, *ttl_secs),
            WalEntry::Delete { key } => WalEntryView::Delete(key@),
            WalEntry::Checkpoint { timestamp } => WalEntryView::Checkpoint(*timestamp),
        }
    }
}

/// The views of a list of log entries.
pub open spec fn entry_views(v: Seq<WalEntry>) -> Seq<WalEntryView> {
    v.map_values(|e: WalEntry| e@)
}

/// The entries before the first record that could not be decoded.
pub open spec fn leading_entries(decoded: Seq<Option<WalEntry>>) -> Seq<WalEntry>
    decreases decoded.len(),
{
    if decoded.len() == 0 {
        Seq::empty()
    } else {
        match decoded[0] {
            Some(e) => seq![e] + leading_entries(decoded.drop_first()),
            None => Seq::empty(),
        }
    }
}

/// The entries to replay, given each record decoded in turn (`None` where
/// it could not be) and why reading stopped: those before the first record
/// that could not be decoded, or `None` (an error) when every record decoded
/// and the log ended in a record cut short.
pub fn replayable_entries(decoded: Vec<Option<WalEntry>>, stop: WalStop) -> (r: Option<Vec<WalEntry>>)
    ensures
        r is None <==> ((forall|i: int| 0 <= i < decoded@.len() ==> (#[trigger] decoded@[i]) is Some) && stop is Truncated),
        r matches Some(v) ==> v@ == leading_entries(decoded@),
{
    let ghost d0 = decoded@;
    let mut decoded = decoded;
    let mut out: Vec<WalEntry> = Vec::new();
    let mut stopped = false;
    while decoded.len() > 0
        invariant
            out@ + leading_entries(decoded@) == leading_entries(d0),
            stopped ==> leading_entries(d0) == out@,
            stopped ==> exists|i: int| 0 <= i < d0.len() && d0[i] is None,
            !stopped ==> decoded@ == d0.subrange(d0.len() - decoded@.len(), d0.len() as int),
            !stopped ==> forall|i: int| 0 <= i < d0.len() - decoded@.len() ==> (#[trigger] d0[i]) is Some,
            decoded@.len() <= d0.len(),
        decreases decoded@.len(),
    {
        let ghost before = decoded@;
        let first = decoded.remove(0);
        proof {
            assert(decoded@ =~= before.drop_first());
        }
        match first {
            Some(e) => {
                proof {
                    assert(out@.push(e) + leading_entries(decoded@) =~= out@ + (seq![e] + leading_entries(decoded@)));
                    if !stopped {
                        assert(decoded@ =~= d0.subrange(d0.len() - decoded@.len(), d0.len() as int));
                        assert(d0[d0.len() - before.len()] == before[0]);
                    }
                }
                out.push(e);
            },
            None => {
                proof {
                    if !stopped {
                        assert(d0[d0.len() - before.len()] == before[0]);
                    }
                    assert(out@ + Seq::<WalEntry>::empty() =~= out@);
                }
                stopped = true;
                decoded = Vec::new();
                proof {
                    assert(out@ + leading_entries(decoded@) =~= out@);
                }
            },
        }
    }
    proof {
        assert(out@ + leading_entries(decoded@) =~= out@);
        if !stopped {
            assert forall|i: int| 0 <= i < d0.len() implies (#[trigger] d0[i]) is Some by {}
        }
    }
    match stop {
        WalStop::Truncated => {
            if stopped {
                Some(out)
            } else {
                None
            }
        },
        _ => Some(out),
    }
}

/// The store after replaying `entries` in order from `s`, the `i`-th one at
/// unix time `times[i]`: a `Put` stores, as a write does, a value created
/// then; a `Delete` removes the key, as a removal does; a `Checkpoint` changes
/// nothing.
pub open spec fn replayed(s: StoreView, entries: Seq<WalEntryView>, times: Seq<u64>) -> StoreView
    decreases entries.len(),
{
    if entries.len() == 0 {
        s
    } else {
        let prev = replayed(s, entries.drop_last(), times);
        let t = times[entries.len() - 1];
        match entries.last() {
            WalEntryView::Put(k, d, ttl) => written(
                prev,
                k,
                CacheValueView { data: d, expires_at_unix: expiry(t, ttl), created_at_unix: t },
            ),
            WalEntryView::Delete(k) => removed(prev, k),
            WalEntryView::Checkpoint(_) => prev,
        }
    }
}

/// Whether `t` is the unix time (in whole seconds) of some reading of the
/// system clock.
pub open spec fn replay_reading(t: u64) -> bool {
    exists|c: SystemTime| t == unix_secs_of(c)
}

/// Applies logged operations to the store in order, each `Put` creating its
/// value at the time it is replayed; returns how many entries were applied.
pub fn replay_entries(engine: &mut StorageEngine, entries: Vec<WalEntry>) -> (r: usize)
    ensures
        r == entries@.len(),
        exists|times: Seq<u64>| times.len() == entries@.len() && final(engine)@ == replayed(old(engine)@, entry_views(entries@), times),
        exists|times: Seq<u64>| {
            &&& times.len() == entries@.len()
            &&& final(engine)@ == replayed(old(engine)@, entry_views(entries@), times)
            &&& forall|i: int| 0 <= i < times.len() && entry_views(entries@)[i] is Put ==> replay_reading(#[trigger] times[i])
        },
{
    let ghost ev = entry_views(entries@);
    let ghost mut times: Seq<u64> = Seq::empty();
    let n = entries.len();
    let mut i: usize = 0;
    while i < n
        invariant
            i <= n,
            n == entries@.len(),
            ev == entry_views(entries@),
            times.len() == i,
            engine@ == replayed(old(engine)@, ev.take(i as int), times),
            forall|j: int| 0 <= j < times.len() && ev[j] is Put ==> replay_reading(#[trigger] times[j]),
        decreases n - i,
    {
        let ghost before = engine@;
        proof {
            assert(ev.take(i + 1).drop_last() =~= ev.take(i as int));
            assert(ev.take(i + 1).last() == entries@[i as int]@);
        }
        match &entries[i] {
            WalEntry::Put { key, value, ttl_secs } => {
                let v = CacheValue::new(crate::storage::engine::copy_bytes(value), *ttl_secs);
                let ghost t = v.created_at_unix;
                engine.set(key.clone(), v);
                proof {
                    let t2 = times.push(t);
                    assert(replay_reading(t));
                    assert forall|j: int| 0 <= j < t2.len() && ev[j] is Put implies replay_reading(#[trigger] t2[j]) by {
                        if j < times.len() {
                            assert(t2[j] == times[j]);
                        }
                    }
                    lemma_replayed_times(old(engine)@, ev.take(i as int), times, t2);
                    times = t2;
                    assert(engine@ == written(before, key@, CacheValueView { data: value@, expires_at_unix: expiry(t, *ttl_secs), created_at_unix: t }));
                }
            }
            WalEntry::Delete { key } => {
                engine.delete(key.as_str());
                proof {
                    let t2 = times.push(0);
                    assert(!(ev[i as int] is Put));
                    assert forall|j: int| 0 <= j < t2.len() && ev[j] is Put implies replay_reading(#[trigger] t2[j]) by {
                        if j < times.len() {
                            assert(t2[j] == times[j]);
                        }
                    }
                    lemma_replayed_times(old(engine)@, ev.take(i as int), times, t2);
                    times = t2;
                    assert(engine@ == removed(before, key@));
                }
            }
            WalEntry::Checkpoint { .. } => {
                proof {
                    let t2 = times.push(0);
                    assert(!(ev[i as int] is Put));
                    assert forall|j: int| 0 <= j < t2.len() && ev[j] is Put implies replay_reading(#[trigger] t2[j]) by {
                        if j < times.len() {
                            assert(t2[j] == times[j]);
                        }
                    }
                    lemma_replayed_times(old(engine)@, ev.take(i as int), times, t2);
                    times = t2;
                }
            }
        }
        i = i + 1;
    }
    proof {
        assert(ev.take(n as int) =~= ev);
    }
    n
}

/// Replaying only reads the times of the entries replayed.
proof fn lemma_replayed_times(s: StoreView, entries: Seq<WalEntryView>, t1: Seq<u64>, t2: Seq<u64>)
    requires
        t1.len() >= entries.len(),
        t2.len() >= entries.len(),
        forall|i: int| 0 <= i < entries.len() ==> t1[i] == t2[i],
    ensures
        replayed(s, entries, t1) == replayed(s, entries, t2),
    decreases entries.len(),
{
    if entries.len() > 0 {
        lemma_replayed_times(s, entries.drop_last(), t1, t2);
    }
}

/// Law: the value a replayed `Put` stores is created at the time `c` of its
/// replay and expires `ttl` seconds later, so right after the replay the key
/// holds it, live at every time from `c` until `ttl` seconds later.
pub proof fn lemma_replayed_put_live(
    s: StoreView,
    entries: Seq<WalEntryView>,
    times: Seq<u64>,
    key: Seq<char>,
    data: Seq<u8>,
    ttl: u64,
    now: u64,
)
    requires
        entries.len() > 0,
        times.len() >= entries.len(),
        entries.last() == WalEntryView::Put(key, data, Some(ttl)),
        times[entries.len() - 1] <= now < times[entries.len() - 1] + ttl,
        now < u64::MAX,
    ensures
        replayed(s, entries, times).entries.contains_key(key),
        replayed(s, entries, times).entries[key].value == (CacheValueView {
            data,
            expires_at_unix: expiry(times[entries.len() - 1], Some(ttl)),
            created_at_unix: times[entries.len() - 1],
        }),
        !expired_at(replayed(s, entries, times).entries[key].value, now),
{
    lemma_fresh_value_live(data, times[entries.len() - 1], Some(ttl), now);
}

} // verus!
