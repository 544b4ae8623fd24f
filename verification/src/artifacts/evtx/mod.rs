//! Windows event logs (.evtx).
//!
//! A log is a header and chunks of 64 KiB. A chunk holds records and what they
//! share: names and template definitions. A record is BinXML, most often an
//! instance of a template: values that take the places in a definition. Every
//! record becomes a timeline event with a readable description of one line.
//!
//! References:
//! - MS-EVEN6, the Windows Event Log protocol
//! - the EVTX format as Joachim Metz describes it (libevtx)

use vstd::prelude::*;

pub mod binxml;
pub mod event;
pub mod fields;
pub mod instance;
pub mod template;
pub mod values;

use self::binxml::parse_event_binxml;
use self::template::TemplateCache;
use super::reader;
use super::reader::Reader;
use super::{ArtifactParser, FileView, SourceFile};
use crate::timeline;
use crate::timeline::time;
use crate::timeline::time::Clock;
use crate::timeline::{ArtifactSource, EventView, TimelineEvent};

pub use self::event::EvtxEvent;

verus! {

pub const FILE_HEADER_SIZE: usize = 4096;

pub const CHUNK_SIZE: usize = 65536;

pub const CHUNK_HEADER_TOTAL: usize = 512;

pub const RECORD_HEADER_SIZE: usize = 24;

/// The signature of a record, `**` and two zeros.
pub const RECORD_MAGIC: u32 = 0x0000_2A2A;

pub const MAX_CHUNKS: usize = 32_768;

/// Whether bytes start as a log does ("ElfFile").
pub open spec fn is_log(raw: Seq<u8>) -> bool {
    raw.len() >= 8 && raw[0] == 0x45 && raw[1] == 0x6C && raw[2] == 0x66 && raw[3] == 0x46 && raw[4]
        == 0x69 && raw[5] == 0x6C && raw[6] == 0x65 && raw[7] == 0
}

/// Whether bytes start as a chunk does ("ElfChnk").
pub open spec fn is_chunk(data: Seq<u8>) -> bool {
    data.len() >= 8 && data[0] == 0x45 && data[1] == 0x6C && data[2] == 0x66 && data[3] == 0x43
        && data[4] == 0x68 && data[5] == 0x6E && data[6] == 0x6B && data[7] == 0
}

fn starts_log(raw: &[u8]) -> (r: bool)
    ensures
        r == is_log(raw@),
{
    raw.len() >= 8 && raw[0] == 0x45 && raw[1] == 0x6C && raw[2] == 0x66 && raw[3] == 0x46 && raw[4]
        == 0x69 && raw[5] == 0x6C && raw[6] == 0x65 && raw[7] == 0
}

fn starts_chunk(data: &[u8]) -> (r: bool)
    ensures
        r == is_chunk(data@),
{
    data.len() >= 8 && data[0] == 0x45 && data[1] == 0x6C && data[2] == 0x66 && data[3] == 0x43
        && data[4] == 0x68 && data[5] == 0x6E && data[6] == 0x6B && data[7] == 0
}

// ---------------------------------------------------------------------
// Records of a chunk
// ---------------------------------------------------------------------

/// The size of the record at `pos` of a chunk, `None` where there is none.
pub open spec fn record_size(chunk: Seq<u8>, pos: int) -> Option<int> {
    match (reader::u32_at(chunk, pos), reader::u32_at(chunk, pos + 4)) {
        (Some(magic), Some(size)) => if magic == RECORD_MAGIC && size >= RECORD_HEADER_SIZE && pos
            + size <= chunk.len() {
            Some(size as int)
        } else {
            None
        },
        _ => None,
    }
}

/// Where the records from `pos` on stand. What is no record is stepped over,
/// four bytes at a time.
pub open spec fn records_from(chunk: Seq<u8>, pos: int) -> Seq<int>
    decreases chunk.len() - pos,
{
    if pos + RECORD_HEADER_SIZE > chunk.len() {
        seq![]
    } else {
        match record_size(chunk, pos) {
            Some(size) => seq![pos] + records_from(chunk, pos + size),
            None => records_from(chunk, pos + 4),
        }
    }
}

/// Where the records of a chunk stand.
pub open spec fn records_of(chunk: Seq<u8>) -> Seq<int> {
    records_from(chunk, CHUNK_HEADER_TOTAL as int)
}

/// A list of places as numbers.
pub open spec fn places(list: Seq<usize>) -> Seq<int> {
    Seq::new(list.len(), |i: int| list[i] as int)
}

fn size_at(chunk: &[u8], pos: usize) -> (r: Option<usize>)
    ensures
        match r {
            Some(size) => record_size(chunk@, pos as int) == Some(size as int),
            None => record_size(chunk@, pos as int) is None,
        },
        chunk@.len() <= usize::MAX,
{
    let r = Reader::new(chunk);
    match (r.u32(pos), r.u32(pos.saturating_add(4))) {
        (Some(magic), Some(size)) => {
            if magic == RECORD_MAGIC && size as usize >= RECORD_HEADER_SIZE {
                match r.slice(pos, size as usize) {
                    Some(_) => Some(size as usize),
                    None => None,
                }
            } else {
                None
            }
        },
        _ => None,
    }
}

fn iter_chunk_records(chunk: &[u8]) -> (out: Vec<usize>)
    ensures
        places(out@) == records_of(chunk@),
{
    let mut out: Vec<usize> = Vec::new();
    let n: usize = chunk.len();
    let mut pos: usize = CHUNK_HEADER_TOTAL;
    let ghost whole = records_of(chunk@);
    assert(places(out@) + whole =~= whole);
    while pos <= n && RECORD_HEADER_SIZE <= n - pos
        invariant
            n == chunk@.len(),
            places(out@) + records_from(chunk@, pos as int) == whole,
        decreases n - pos,
    {
        match size_at(chunk, pos) {
            Some(size) => {
                let ghost before = places(out@);
                let ghost rest = records_from(chunk@, pos + size);
                out.push(pos);
                assert(places(out@) + rest =~= before + (seq![pos as int] + rest));
                pos = pos + size;
            },
            None => {
                pos = pos + 4;
            },
        }
    }
    assert(places(out@) + seq![] =~= places(out@));
    out
}

/// The records of a chunk lie in it one behind the other, each with its
/// signature and at least its header.
pub proof fn law_records_do_not_overlap(chunk: Seq<u8>)
    ensures
        forall|i: int|
            0 <= i < records_of(chunk).len() ==> {
                let pos = #[trigger] records_of(chunk)[i];
                &&& CHUNK_HEADER_TOTAL <= pos
                &&& record_size(chunk, pos) is Some
                &&& pos + RECORD_HEADER_SIZE <= pos + record_size(chunk, pos)->0 <= chunk.len()
            },
        forall|i: int, j: int|
            0 <= i < j < records_of(chunk).len() ==> (#[trigger] records_of(chunk)[i]) + record_size(
                chunk,
                records_of(chunk)[i],
            )->0 <= #[trigger] records_of(chunk)[j],
{
    lemma_records_from(chunk, CHUNK_HEADER_TOTAL as int);
}

proof fn lemma_records_from(chunk: Seq<u8>, pos: int)
    requires
        0 <= pos,
    ensures
        forall|i: int|
            0 <= i < records_from(chunk, pos).len() ==> {
                let at = #[trigger] records_from(chunk, pos)[i];
                &&& pos <= at
                &&& record_size(chunk, at) is Some
                &&& RECORD_HEADER_SIZE <= record_size(chunk, at)->0
                &&& at + record_size(chunk, at)->0 <= chunk.len()
            },
        forall|i: int, j: int|
            0 <= i < j < records_from(chunk, pos).len() ==> (#[trigger] records_from(chunk, pos)[i])
                + record_size(chunk, records_from(chunk, pos)[i])->0 <= #[trigger] records_from(
                chunk,
                pos,
            )[j],
    decreases chunk.len() - pos,
{
    if pos + RECORD_HEADER_SIZE <= chunk.len() {
        match record_size(chunk, pos) {
            Some(size) => {
                lemma_records_from(chunk, pos + size);
                let rest = records_from(chunk, pos + size);
                let all = records_from(chunk, pos);
                assert forall|i: int| 0 < i < all.len() implies #[trigger] all[i] == rest[i - 1] by {
                }
            },
            None => {
                lemma_records_from(chunk, pos + 4);
            },
        }
    }
}

// ---------------------------------------------------------------------
// Events
// ---------------------------------------------------------------------

/// What the record at `pos` of a chunk says.
pub open spec fn record_at(chunk: Seq<u8>, pos: int, now: time::Moment) -> event::EvtxView {
    let binxml = chunk.subrange(pos + 24, pos + record_size(chunk, pos)->0);
    event::event_of(
        reader::u64_at(chunk, pos + 8)->0,
        reader::u64_at(chunk, pos + 16)->0,
        binxml::fields_of(binxml, chunk, pos + 24),
        now,
    )
}

/// Whether the record at `pos` of a chunk says when it was made.
pub open spec fn is_dated_at(chunk: Seq<u8>, pos: int) -> bool {
    let binxml = chunk.subrange(pos + 24, pos + record_size(chunk, pos)->0);
    event::is_dated(
        binxml::fields_of(binxml, chunk, pos + 24),
        reader::u64_at(chunk, pos + 16)->0,
    )
}

/// How many of the first `n` records of a chunk do not say when they were made.
pub open spec fn undated_among(chunk: Seq<u8>, n: int) -> nat
    decreases n,
{
    if n <= 0 {
        0
    } else if is_dated_at(chunk, records_of(chunk)[n - 1]) {
        undated_among(chunk, n - 1)
    } else {
        undated_among(chunk, n - 1) + 1
    }
}

/// How many records of a chunk do not say when they were made.
pub open spec fn undated_records(chunk: Seq<u8>) -> nat {
    undated_among(chunk, records_of(chunk).len() as int)
}

/// The events of a chunk, one for each record. A record that does not say when
/// it was made takes the next reading of the clock.
pub open spec fn chunk_events(chunk: Seq<u8>, path: Seq<char>, readings: Seq<time::Moment>) -> Seq<
    EventView,
> {
    Seq::new(
        records_of(chunk).len(),
        |i: int|
            event::timeline_event(
                record_at(chunk, records_of(chunk)[i], readings[undated_among(chunk, i) as int]),
                path,
            ),
    )
}

/// The chunks that a log has room for.
pub open spec fn chunk_count(raw: Seq<u8>) -> int {
    let room = if raw.len() < FILE_HEADER_SIZE {
        0
    } else {
        (raw.len() - FILE_HEADER_SIZE) / 65536
    };
    if room <= MAX_CHUNKS {
        room
    } else {
        MAX_CHUNKS as int
    }
}

/// The `k`th chunk of a log.
pub open spec fn chunk_at(raw: Seq<u8>, k: int) -> Seq<u8> {
    raw.subrange(4096 + 65536 * k, 4096 + 65536 * k + 65536)
}

/// How many records of a log's first `n` chunks do not say when they were made.
pub open spec fn undated_in(raw: Seq<u8>, n: int) -> nat
    decreases n,
{
    if n <= 0 {
        0
    } else {
        let chunk = chunk_at(raw, n - 1);
        undated_in(raw, n - 1) + if is_chunk(chunk) {
            undated_records(chunk)
        } else {
            0
        }
    }
}

/// The events of a log's first `n` chunks. What does not start as a chunk does
/// has none. Each record that does not say when it was made takes a reading of
/// the clock.
pub open spec fn log_events(
    raw: Seq<u8>,
    n: int,
    path: Seq<char>,
    readings: Seq<time::Moment>,
) -> Seq<EventView>
    decreases n,
{
    if n <= 0 {
        seq![]
    } else {
        let before = log_events(raw, n - 1, path, readings);
        let chunk = chunk_at(raw, n - 1);
        if is_chunk(chunk) {
            before + chunk_events(chunk, path, readings.skip(undated_in(raw, n - 1) as int))
        } else {
            before
        }
    }
}

proof fn lemma_undated_grows(chunk: Seq<u8>, k: int, n: int)
    requires
        0 <= k < n,
    ensures
        undated_among(chunk, k) <= undated_among(chunk, k + 1) <= undated_among(chunk, n),
    decreases n,
{
    if k + 1 < n {
        lemma_undated_grows(chunk, k, n - 1);
    }
}

/// The first events of a chunk depend on as many readings as records among
/// them do not say when they were made.
proof fn lemma_chunk_readings(
    chunk: Seq<u8>,
    path: Seq<char>,
    a: Seq<time::Moment>,
    b: Seq<time::Moment>,
    n: int,
)
    requires
        0 <= n <= records_of(chunk).len(),
        undated_among(chunk, n) <= a.len(),
        undated_among(chunk, n) <= b.len(),
        a.take(undated_among(chunk, n) as int) == b.take(undated_among(chunk, n) as int),
    ensures
        chunk_events(chunk, path, a).take(n) == chunk_events(chunk, path, b).take(n),
{
    let u = undated_among(chunk, n) as int;
    assert forall|k: int| 0 <= k < n implies #[trigger] chunk_events(chunk, path, a)[k]
        == chunk_events(chunk, path, b)[k] by {
        lemma_undated_grows(chunk, k, n);
        let i = undated_among(chunk, k) as int;
        let pos = records_of(chunk)[k];
        if is_dated_at(chunk, pos) {
            assert(record_at(chunk, pos, a[i]) == record_at(chunk, pos, b[i]));
        } else {
            assert(i < u);
            assert(a[i] == a.take(u)[i]);
            assert(b[i] == b.take(u)[i]);
        }
    }
    assert(chunk_events(chunk, path, a).take(n) =~= chunk_events(chunk, path, b).take(n));
}

/// The events of a log depend on as many readings as records in it do not say
/// when they were made.
pub proof fn lemma_log_readings(
    raw: Seq<u8>,
    n: int,
    path: Seq<char>,
    a: Seq<time::Moment>,
    b: Seq<time::Moment>,
)
    requires
        undated_in(raw, n) <= a.len(),
        undated_in(raw, n) <= b.len(),
        a.take(undated_in(raw, n) as int) == b.take(undated_in(raw, n) as int),
    ensures
        log_events(raw, n, path, a) == log_events(raw, n, path, b),
    decreases n,
{
    if n > 0 {
        let all = undated_in(raw, n) as int;
        let first = undated_in(raw, n - 1) as int;
        let chunk = chunk_at(raw, n - 1);
        assert(a.take(first) =~= a.take(all).take(first));
        assert(b.take(first) =~= b.take(all).take(first));
        lemma_log_readings(raw, n - 1, path, a, b);
        if is_chunk(chunk) {
            let own = undated_records(chunk) as int;
            let count = records_of(chunk).len() as int;
            let (c, d) = (a.skip(first), b.skip(first));
            assert(c.take(own) =~= a.take(all).skip(first));
            assert(d.take(own) =~= b.take(all).skip(first));
            lemma_chunk_readings(chunk, path, c, d, count);
            assert(chunk_events(chunk, path, c).take(count) =~= chunk_events(chunk, path, c));
            assert(chunk_events(chunk, path, d).take(count) =~= chunk_events(chunk, path, d));
        }
    }
}

fn decode_record(chunk: &[u8], pos: usize, cache: &mut TemplateCache, clock: &mut Clock) -> (r:
    EvtxEvent)
    requires
        record_size(chunk@, pos as int) is Some,
        old(cache).holds(chunk@),
    ensures
        final(cache).holds(chunk@),
        final(cache).loaded_since(
            old(cache),
            binxml::loads_of(
                chunk@.subrange(pos + 24, pos + record_size(chunk@, pos as int)->0),
                chunk@,
                pos + 24,
            ),
        ),
        r@ == record_at(chunk@, pos as int, r@.timestamp),
        final(clock).asked(
            old(clock),
            if is_dated_at(chunk@, pos as int) {
                0
            } else {
                1
            },
        ),
        !is_dated_at(chunk@, pos as int) ==> final(clock).since(old(clock)) == seq![r@.timestamp],
{
    let size: usize = match size_at(chunk, pos) {
        Some(size) => size,
        None => RECORD_HEADER_SIZE,
    };
    let reader = Reader::new(chunk);
    let (record_id, filetime) = match (reader.u64(pos + 8), reader.u64(pos + 16)) {
        (Some(record_id), Some(filetime)) => (record_id, filetime),
        _ => (0, 0),
    };
    let binxml = &chunk[pos + RECORD_HEADER_SIZE..pos + size];
    let fields = parse_event_binxml(binxml, chunk, cache, pos + RECORD_HEADER_SIZE);
    event::decode_fields(record_id, filetime, fields, clock)
}

fn parse_chunk(chunk: &[u8], file: &SourceFile, clock: &mut Clock, out: &mut Vec<TimelineEvent>)
    ensures
        final(clock).asked(old(clock), undated_records(chunk@)),
        timeline::views(final(out)@) == timeline::views(old(out)@) + chunk_events(
            chunk@,
            file@.path,
            final(clock).since(old(clock)),
        ),
{
    let mut cache = TemplateCache::new();
    let records = iter_chunk_records(chunk);
    let ghost before = timeline::views(out@);
    assert(places(records@).len() == records@.len());
    proof {
        law_records_do_not_overlap(chunk@);
        time::lemma_not_asked(*clock);
        let all = chunk_events(chunk@, file@.path, clock.since(old(clock)));
        assert(timeline::views(out@) =~= before + all.take(0));
    }
    for i in 0..records.len()
        invariant
            cache.holds(chunk@),
            places(records@) == records_of(chunk@),
            records@.len() == records_of(chunk@).len(),
            forall|i: int|
                0 <= i < records_of(chunk@).len() ==> record_size(
                    chunk@,
                    #[trigger] records_of(chunk@)[i],
                ) is Some,
            clock.asked(old(clock), undated_among(chunk@, i as int)),
            timeline::views(out@) == before + chunk_events(
                chunk@,
                file@.path,
                clock.since(old(clock)),
            ).take(i as int),
    {
        assert(places(records@)[i as int] == records@[i as int]);
        let ghost pos = records_of(chunk@)[i as int];
        let ghost asked = undated_among(chunk@, i as int);
        let ghost earlier = *clock;
        let record = decode_record(chunk, records[i], &mut cache, clock);
        let event = event::build_event(&record, &file.path);
        let ghost sofar = timeline::views(out@);
        let ghost shown = event@;
        out.push(event);
        assert(timeline::views(out@) =~= sofar.push(shown));
        proof {
            let added = if is_dated_at(chunk@, pos) {
                0nat
            } else {
                1nat
            };
            time::lemma_asked_again(*old(clock), earlier, *clock, asked, added);
            let readings = clock.since(old(clock));
            let all = chunk_events(chunk@, file@.path, readings);
            let first = earlier.since(old(clock));
            assert(first.take(asked as int) =~= first);
            lemma_chunk_readings(chunk@, file@.path, first, readings, i as int);
            assert(record@ == record_at(chunk@, pos, readings[asked as int]));
            assert(all.take(i + 1) =~= all.take(i as int).push(all[i as int]));
            assert(sofar.push(shown) =~= before + all.take(i + 1));
        }
    }
    proof {
        let all = chunk_events(chunk@, file@.path, clock.since(old(clock)));
        assert(all.take(all.len() as int) =~= all);
    }
}

/// The parser of event logs.
pub struct EvtxParser;

impl ArtifactParser for EvtxParser {
    open spec fn source(&self) -> ArtifactSource {
        ArtifactSource::Evtx
    }

    open spec fn recognizes(&self, raw: Seq<u8>) -> bool {
        is_log(raw)
    }

    open spec fn presents(&self, raw: Seq<u8>, file: FileView) -> nat {
        if is_log(raw) {
            undated_in(raw, chunk_count(raw))
        } else {
            0
        }
    }

    open spec fn timeline(&self, raw: Seq<u8>, file: FileView, readings: Seq<time::Moment>) -> Seq<
        EventView,
    > {
        if is_log(raw) {
            log_events(raw, chunk_count(raw), file.path, readings)
        } else {
            seq![]
        }
    }

    fn source_name(&self) -> (r: &'static str) {
        "evtx"
    }

    fn matches(&self, raw: &[u8]) -> (r: bool) {
        assert(self.recognizes(raw@) == is_log(raw@));
        starts_log(raw)
    }

    fn parse_with(&self, raw: &[u8], file: &SourceFile, clock: &mut Clock) -> (r: Vec<
        TimelineEvent,
    >) {
        let mut events: Vec<TimelineEvent> = Vec::new();
        assert(timeline::views(events@) =~= seq![]);
        assert(forall|readings: Seq<time::Moment>| #[trigger]
            self.timeline(raw@, file@, readings) == if is_log(raw@) {
                log_events(raw@, chunk_count(raw@), file@.path, readings)
            } else {
                seq![]
            });
        assert(self.presents(raw@, file@) == if is_log(raw@) {
            undated_in(raw@, chunk_count(raw@))
        } else {
            0
        });
        proof {
            time::lemma_not_asked(*clock);
        }
        if !starts_log(raw) {
            return events;
        }
        let total: usize = raw.len();
        let mut offset: usize = FILE_HEADER_SIZE;
        let mut count: usize = 0;
        while offset <= total && CHUNK_SIZE <= total - offset && count < MAX_CHUNKS
            invariant
                total == raw@.len(),
                count <= MAX_CHUNKS,
                count <= chunk_count(raw@),
                offset == 4096 + 65536 * count,
                clock.asked(old(clock), undated_in(raw@, count as int)),
                timeline::views(events@) == log_events(
                    raw@,
                    count as int,
                    file@.path,
                    clock.since(old(clock)),
                ),
            decreases MAX_CHUNKS - count,
        {
            let chunk = &raw[offset..offset + CHUNK_SIZE];
            let ghost asked = undated_in(raw@, count as int);
            let ghost earlier = *clock;
            assert(chunk@ == chunk_at(raw@, count as int));
            if starts_chunk(chunk) {
                parse_chunk(chunk, file, clock, &mut events);
                proof {
                    let first = earlier.since(old(clock));
                    let readings = clock.since(old(clock));
                    time::lemma_asked_again(
                        *old(clock),
                        earlier,
                        *clock,
                        asked,
                        undated_records(chunk@),
                    );
                    assert(first.take(asked as int) =~= first);
                    lemma_log_readings(raw@, count as int, file@.path, first, readings);
                }
            }
            offset = offset + CHUNK_SIZE;
            count = count + 1;
        }
        events
    }
}

// ---------------------------------------------------------------------
// Laws
// ---------------------------------------------------------------------

/// Every event of a log is of this source and of the log's path.
pub proof fn law_log_events_name_their_log(
    raw: Seq<u8>,
    n: int,
    path: Seq<char>,
    readings: Seq<time::Moment>,
)
    ensures
        forall|i: int|
            0 <= i < log_events(raw, n, path, readings).len() ==> {
                let event = #[trigger] log_events(raw, n, path, readings)[i];
                event.source == ArtifactSource::Evtx && event.artifact_path == path
            },
    decreases n,
{
    if n > 0 {
        law_log_events_name_their_log(raw, n - 1, path, readings);
    }
}

proof fn lemma_same_chunks(
    raw: Seq<u8>,
    len: int,
    n: int,
    path: Seq<char>,
    readings: Seq<time::Moment>,
)
    requires
        0 <= n,
        4096 + 65536 * n <= len <= raw.len(),
    ensures
        undated_in(raw.take(len), n) == undated_in(raw, n),
        log_events(raw.take(len), n, path, readings) == log_events(raw, n, path, readings),
    decreases n,
{
    if n > 0 {
        lemma_same_chunks(raw, len, n - 1, path, readings);
        assert(chunk_at(raw.take(len), n - 1) =~= chunk_at(raw, n - 1));
    }
}

proof fn lemma_fewer_chunks(
    raw: Seq<u8>,
    few: int,
    many: int,
    path: Seq<char>,
    readings: Seq<time::Moment>,
)
    requires
        0 <= few <= many,
    ensures
        log_events(raw, few, path, readings).is_prefix_of(log_events(raw, many, path, readings)),
    decreases many - few,
{
    let some = log_events(raw, few, path, readings);
    let all = log_events(raw, many, path, readings);
    if few < many {
        lemma_fewer_chunks(raw, few, many - 1, path, readings);
        let before = log_events(raw, many - 1, path, readings);
        assert(all.subrange(0, some.len() as int) =~= before.subrange(0, some.len() as int));
    } else {
        assert(some =~= all.subrange(0, some.len() as int));
    }
}

/// A truncated log gives the first of the events that the whole one gives.
pub proof fn law_truncated_log_gives_first_events(
    raw: Seq<u8>,
    n: int,
    file: FileView,
    readings: Seq<time::Moment>,
)
    requires
        0 <= n <= raw.len(),
    ensures
        EvtxParser.timeline(raw.take(n), file, readings).is_prefix_of(
            EvtxParser.timeline(raw, file, readings),
        ),
{
    let few = chunk_count(raw.take(n));
    if is_log(raw.take(n)) {
        if few > 0 {
            lemma_same_chunks(raw, n, few, file.path, readings);
        }
        lemma_fewer_chunks(raw, few, chunk_count(raw), file.path, readings);
    }
}

} // verus!
