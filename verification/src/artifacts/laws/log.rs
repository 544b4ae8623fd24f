//! What an event log holds, in terms of its bytes.

use vstd::prelude::*;

use super::lnk;
use crate::artifacts::evtx;
use crate::artifacts::evtx::binxml;
use crate::artifacts::evtx::event;
use crate::artifacts::evtx::EvtxParser;
use crate::artifacts::reader;
use crate::artifacts::{ArtifactParser, FileView};
use crate::timeline::time;

verus! {

/// Whether bytes start as a log does: `ElfFile` and a zero.
pub open spec fn starts_log(raw: Seq<u8>) -> bool {
    raw.len() >= 8 && raw.take(8) == seq![0x45u8, 0x6C, 0x66, 0x46, 0x69, 0x6C, 0x65, 0x00]
}

/// Whether the chunk at an offset of a log starts as one does: `ElfChnk` and a
/// zero.
pub open spec fn starts_chunk(raw: Seq<u8>, at: int) -> bool {
    raw.subrange(at, at + 8) == seq![0x45u8, 0x6C, 0x66, 0x43, 0x68, 0x6E, 0x6B, 0x00]
}

/// Logs are what starts as a log does, however they go on.
pub proof fn law_logs_start_with_their_signature(raw: Seq<u8>)
    ensures
        EvtxParser.recognizes(raw) == starts_log(raw),
{
    assert(EvtxParser.recognizes(raw) == evtx::is_log(raw));
    let mark = seq![0x45u8, 0x6C, 0x66, 0x46, 0x69, 0x6C, 0x65, 0x00];
    if raw.len() >= 8 {
        let head = raw.take(8);
        assert(head[0] == raw[0] && head[1] == raw[1] && head[2] == raw[2] && head[3] == raw[3]);
        assert(head[4] == raw[4] && head[5] == raw[5] && head[6] == raw[6] && head[7] == raw[7]);
        if evtx::is_log(raw) {
            assert(head =~= mark);
        }
    }
}

/// A chunk of 64 KiB more, behind the head of 4 KiB and whole chunks, gives a
/// log its own events behind those it has, if it starts as a chunk does. Of more
/// than 32768 chunks only these are read.
pub proof fn law_log_has_the_events_of_its_chunks(
    raw: Seq<u8>,
    chunk: Seq<u8>,
    file: FileView,
    readings: Seq<time::Moment>,
    n: int,
)
    requires
        starts_log(raw),
        raw.len() == 4096 + 65536 * n,
        0 <= n,
        chunk.len() == 65536,
    ensures
        ({
            let before = EvtxParser.timeline(raw, file, readings);
            let used = EvtxParser.presents(raw, file) as int;
            let after = EvtxParser.timeline(raw + chunk, file, readings);
            &&& n < 32768 && starts_chunk(chunk, 0) ==> after == before + evtx::chunk_events(
                chunk,
                file.path,
                readings.skip(used),
            )
            &&& n >= 32768 || !starts_chunk(chunk, 0) ==> after == before
            &&& EvtxParser.presents(raw + chunk, file) == used + if n < 32768 && starts_chunk(
                chunk,
                0,
            ) {
                evtx::undated_records(chunk)
            } else {
                0
            }
        }),
{
    law_logs_start_with_their_signature(raw);
    let all = raw + chunk;
    assert(all.take(8) =~= raw.take(8));
    law_logs_start_with_their_signature(all);
    assert(evtx::chunk_count(raw) == if n <= 32768 {
        n
    } else {
        32768
    });
    assert(evtx::chunk_count(all) == if n + 1 <= 32768 {
        n + 1
    } else {
        32768
    });
    let first = evtx::chunk_count(raw);
    lemma_same_chunks(raw, chunk, first, file.path, readings);
    assert(EvtxParser.presents(raw, file) == evtx::undated_in(raw, first));
    assert(EvtxParser.presents(all, file) == evtx::undated_in(all, evtx::chunk_count(all)));
    if n < 32768 {
        assert(evtx::chunk_at(all, n) =~= chunk);
        let head = chunk.subrange(0, 8);
        assert(head[0] == chunk[0] && head[1] == chunk[1] && head[2] == chunk[2]);
        assert(head[3] == chunk[3] && head[4] == chunk[4] && head[5] == chunk[5]);
        assert(head[6] == chunk[6] && head[7] == chunk[7]);
        let mark = seq![0x45u8, 0x6C, 0x66, 0x43, 0x68, 0x6E, 0x6B, 0x00];
        if evtx::is_chunk(chunk) {
            assert(head =~= mark);
        }
        assert(evtx::is_chunk(chunk) == starts_chunk(chunk, 0));
    }
}

/// Less than a chunk behind the whole chunks of a log changes nothing.
pub proof fn law_rest_of_a_log_has_no_events(
    raw: Seq<u8>,
    rest: Seq<u8>,
    file: FileView,
    readings: Seq<time::Moment>,
    n: int,
)
    requires
        starts_log(raw),
        raw.len() == 4096 + 65536 * n,
        0 <= n,
        rest.len() < 65536,
    ensures
        EvtxParser.timeline(raw + rest, file, readings) == EvtxParser.timeline(raw, file, readings),
        EvtxParser.presents(raw + rest, file) == EvtxParser.presents(raw, file),
{
    law_logs_start_with_their_signature(raw);
    let all = raw + rest;
    assert(all.take(8) =~= raw.take(8));
    law_logs_start_with_their_signature(all);
    assert(evtx::chunk_count(all) == evtx::chunk_count(raw));
    let first = evtx::chunk_count(raw);
    lemma_same_chunks(raw, rest, first, file.path, readings);
    assert(EvtxParser.presents(raw, file) == evtx::undated_in(raw, first));
    assert(EvtxParser.presents(all, file) == evtx::undated_in(all, first));
}

proof fn lemma_same_chunks(
    raw: Seq<u8>,
    chunk: Seq<u8>,
    n: int,
    path: Seq<char>,
    readings: Seq<time::Moment>,
)
    requires
        0 <= n,
        4096 + 65536 * n <= raw.len(),
    ensures
        evtx::undated_in(raw + chunk, n) == evtx::undated_in(raw, n),
        evtx::log_events(raw + chunk, n, path, readings) == evtx::log_events(
            raw,
            n,
            path,
            readings,
        ),
    decreases n,
{
    if n > 0 {
        lemma_same_chunks(raw, chunk, n - 1, path, readings);
        assert(evtx::chunk_at(raw + chunk, n - 1) =~= evtx::chunk_at(raw, n - 1));
    }
}

/// A log without chunks has no events, and neither has what is no log.
pub proof fn law_what_has_no_events(raw: Seq<u8>, file: FileView, readings: Seq<time::Moment>)
    requires
        !starts_log(raw) || raw.len() < 4096 + 65536,
    ensures
        EvtxParser.timeline(raw, file, readings).len() == 0,
        EvtxParser.presents(raw, file) == 0,
{
    law_logs_start_with_their_signature(raw);
    if evtx::is_log(raw) {
        assert(evtx::chunk_count(raw) <= 0);
    }
    assert(EvtxParser.presents(raw, file) == if evtx::is_log(raw) {
        evtx::undated_in(raw, evtx::chunk_count(raw))
    } else {
        0
    });
}

/// Whether a record stands at `pos` of a chunk: two asterisks, two zeros, a size
/// of at least 24 bytes that the chunk has, and so many bytes.
pub open spec fn is_record(chunk: Seq<u8>, pos: int) -> bool {
    &&& pos + 8 <= chunk.len()
    &&& chunk[pos] == 0x2A
    &&& chunk[pos + 1] == 0x2A
    &&& chunk[pos + 2] == 0
    &&& chunk[pos + 3] == 0
    &&& lnk::number_at(chunk, pos + 4) >= 24
    &&& pos + lnk::number_at(chunk, pos + 4) <= chunk.len()
}

/// Records stand from 512 on, each right behind the one before it. Where there
/// is none, the next four bytes are tried.
pub proof fn law_records_follow_each_other(chunk: Seq<u8>, pos: int)
    requires
        0 <= pos,
    ensures
        evtx::records_of(chunk) == evtx::records_from(chunk, 512),
        pos + 24 > chunk.len() ==> evtx::records_from(chunk, pos).len() == 0,
        pos + 24 <= chunk.len() && is_record(chunk, pos) ==> evtx::records_from(chunk, pos) == seq![
            pos,
        ] + evtx::records_from(chunk, pos + lnk::number_at(chunk, pos + 4)),
        pos + 24 <= chunk.len() && !is_record(chunk, pos) ==> evtx::records_from(chunk, pos)
            == evtx::records_from(chunk, pos + 4),
{
    if pos + 8 <= chunk.len() {
        assert(reader::le32(chunk, pos) == chunk[pos] + 256 * chunk[pos + 1] + 65536 * chunk[pos
            + 2] + 16777216 * chunk[pos + 3]);
        assert(evtx::record_size(chunk, pos) == if is_record(chunk, pos) {
            Some(lnk::number_at(chunk, pos + 4) as int)
        } else {
            None
        });
    }
}

/// The 64-bit number at `pos`.
pub open spec fn wide_at(chunk: Seq<u8>, pos: int) -> u64 {
    (reader::le32(chunk, pos) + 0x1_0000_0000 * reader::le32(chunk, pos + 4)) as u64
}

/// A record has its number at 8, the time it was written at 16, and its BinXML
/// from 24 to its end.
pub proof fn law_record_has_its_layout(chunk: Seq<u8>, pos: int, now: time::Moment)
    requires
        0 <= pos,
        is_record(chunk, pos),
    ensures
        evtx::record_at(chunk, pos, now) == event::event_of(
            wide_at(chunk, pos + 8),
            wide_at(chunk, pos + 16),
            binxml::fields_of(
                chunk.subrange(pos + 24, pos + lnk::number_at(chunk, pos + 4)),
                chunk,
                pos + 24,
            ),
            now,
        ),
{
    assert(reader::le32(chunk, pos) == chunk[pos] + 256 * chunk[pos + 1] + 65536 * chunk[pos + 2]
        + 16777216 * chunk[pos + 3]);
    assert(evtx::record_size(chunk, pos) == Some(lnk::number_at(chunk, pos + 4) as int));
}

/// A chunk gives one event for each of its records, in their order.
pub proof fn law_each_record_gives_an_event(
    chunk: Seq<u8>,
    path: Seq<char>,
    readings: Seq<time::Moment>,
    i: int,
)
    ensures
        evtx::chunk_events(chunk, path, readings).len() == evtx::records_of(chunk).len(),
        0 <= i < evtx::records_of(chunk).len() ==> exists|now: time::Moment|
            evtx::chunk_events(chunk, path, readings)[i] == event::timeline_event(
                #[trigger] evtx::record_at(chunk, evtx::records_of(chunk)[i], now),
                path,
            ),
{
    if 0 <= i < evtx::records_of(chunk).len() {
        let now = readings[evtx::undated_among(chunk, i) as int];
        let record = evtx::record_at(chunk, evtx::records_of(chunk)[i], now);
        assert(evtx::chunk_events(chunk, path, readings)[i] == event::timeline_event(record, path));
    }
}

/// Whether neither the `TimeCreated` of the record at `pos` nor its head says
/// when it was made.
pub open spec fn is_undated(chunk: Seq<u8>, pos: int) -> bool {
    let fields = binxml::fields_of(
        chunk.subrange(pos + 24, pos + lnk::number_at(chunk, pos + 4)),
        chunk,
        pos + 24,
    );
    &&& !fields.contains_key("TimeCreated"@) || time::rfc3339_parts(fields["TimeCreated"@]) is None
    &&& time::filetime_moment(wide_at(chunk, pos + 16)) is None
}

/// How many of the first `n` records of a chunk do not say when they were made.
pub open spec fn undated_before(chunk: Seq<u8>, n: int) -> int
    decreases n,
{
    if n <= 0 {
        0
    } else {
        undated_before(chunk, n - 1) + if is_undated(chunk, evtx::records_of(chunk)[n - 1]) {
            1int
        } else {
            0
        }
    }
}

proof fn lemma_undated(chunk: Seq<u8>, n: int)
    requires
        n <= evtx::records_of(chunk).len(),
    ensures
        undated_before(chunk, n) == evtx::undated_among(chunk, n),
    decreases n,
{
    if n > 0 {
        lemma_undated(chunk, n - 1);
        evtx::law_records_do_not_overlap(chunk);
        let pos = evtx::records_of(chunk)[n - 1];
        assert(evtx::record_size(chunk, pos) is Some);
        assert(evtx::record_size(chunk, pos) == Some(lnk::number_at(chunk, pos + 4) as int));
        assert(evtx::is_dated_at(chunk, pos) == !is_undated(chunk, pos));
    }
}

/// A record that does not say when it was made takes the next reading of the
/// clock: the first such record of a chunk the first one, and so on.
pub proof fn law_readings_are_taken_in_order(
    chunk: Seq<u8>,
    path: Seq<char>,
    readings: Seq<time::Moment>,
    i: int,
)
    requires
        0 <= i < evtx::records_of(chunk).len(),
        is_undated(chunk, evtx::records_of(chunk)[i]),
    ensures
        evtx::chunk_events(chunk, path, readings)[i].timestamp == readings[undated_before(chunk, i)],
        evtx::undated_records(chunk) == undated_before(
            chunk,
            evtx::records_of(chunk).len() as int,
        ),
{
    lemma_undated(chunk, i);
    lemma_undated(chunk, evtx::records_of(chunk).len() as int);
    evtx::law_records_do_not_overlap(chunk);
    let pos = evtx::records_of(chunk)[i];
    assert(evtx::record_size(chunk, pos) == Some(lnk::number_at(chunk, pos + 4) as int));
}

} // verus!
