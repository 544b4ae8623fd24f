//! What a prefetch file's events say, in terms of the file's bytes.

use vstd::prelude::*;

use super::lnk;
use crate::artifacts::prefetch;
use crate::artifacts::prefetch::PrefetchParser;
use crate::artifacts::reader;
use crate::artifacts::xpress;
use crate::artifacts::{ArtifactParser, FileView};
use crate::text;
use crate::timeline::json;
use crate::timeline::time;
use crate::timeline::{ArtifactSource, EventView};

verus! {

/// Whether bytes have the signature "SCCA" behind their first four.
pub open spec fn starts_scca(data: Seq<u8>) -> bool {
    data.len() >= 8 && data[4] == 0x53 && data[5] == 0x43 && data[6] == 0x43 && data[7] == 0x41
}

/// Whether a structure is one that can be read: it has its signature and the
/// offset of its metrics, and is of version 17, 23, 26 or 31, or of version 30
/// with file information of 220 or 212 bytes.
pub open spec fn is_readable(data: Seq<u8>) -> bool {
    let version = lnk::number_at(data, 0);
    let metrics = lnk::number_at(data, 84);
    &&& starts_scca(data)
    &&& data.len() >= 88
    &&& metrics >= 84
    &&& version == 17 || version == 23 || version == 26 || version == 31 || (version == 30 && (
    metrics == 304 || metrics == 296))
}

/// The first slot of run times, and their number, in the version of a structure.
pub open spec fn first_slot(data: Seq<u8>) -> int {
    if lnk::number_at(data, 0) == 17 {
        120
    } else {
        128
    }
}

pub open spec fn slot_count(data: Seq<u8>) -> int {
    if lnk::number_at(data, 0) == 17 || lnk::number_at(data, 0) == 23 {
        1
    } else {
        8
    }
}

/// Where the run count stands in the version of a structure.
pub open spec fn run_count_at(data: Seq<u8>) -> int {
    let version = lnk::number_at(data, 0);
    if version == 17 {
        144
    } else if version == 23 {
        152
    } else if version == 26 || lnk::number_at(data, 84) == 304 && version == 30 {
        208
    } else {
        200
    }
}

/// How many of the first `n` slots hold a run time.
pub open spec fn set_slots(data: Seq<u8>, n: int) -> int
    decreases n,
{
    if n <= 0 {
        0
    } else {
        set_slots(data, n - 1) + if lnk::set_time(data, first_slot(data) + 8 * (n - 1)) is Some {
            1int
        } else {
            0
        }
    }
}

proof fn lemma_slots(data: Seq<u8>, n: nat)
    ensures
        ({
            let times = prefetch::run_times_at(data, first_slot(data), n);
            &&& times.len() == set_slots(data, n as int)
            &&& forall|i: int|
                0 <= i < n && (#[trigger] lnk::set_time(data, first_slot(data) + 8 * i)) is Some ==> {
                    &&& 0 <= set_slots(data, i) < times.len()
                    &&& times[set_slots(data, i)] == lnk::set_time(data, first_slot(data) + 8 * i)->0
                }
        }),
    decreases n,
{
    if n > 0 {
        lemma_slots(data, (n - 1) as nat);
    }
}

/// The structure that a file holds: what the bytes from 8 on decompress to, to
/// the size at 4, behind "MAM" and 4; else the file itself.
pub proof fn law_structure_of_a_file(raw: Seq<u8>)
    ensures
        raw.len() >= 8 && raw[0] == 0x4D && raw[1] == 0x41 && raw[2] == 0x4D && raw[3] == 4
            ==> prefetch::scca_of(raw) == xpress::decompressed(
            raw.skip(8),
            lnk::number_at(raw, 4) as nat,
        ) && PrefetchParser.recognizes(raw),
        !(raw.len() >= 8 && raw[0] == 0x4D && raw[1] == 0x41 && raw[2] == 0x4D && raw[3] == 4)
            ==> prefetch::scca_of(raw) == Some(raw) && PrefetchParser.recognizes(raw)
            == starts_scca(raw),
{
}

/// A file gives events just where it is recognized and holds a structure that
/// can be read: one for each slot that holds a run time, in the order of the
/// slots, and with the moments in them. Where none does, there is one event,
/// with the time of the file, else the present.
///
/// There are eight slots from 128 on in the versions 26, 30 and 31, one at 128
/// in version 23, and one at 120 in version 17.
pub proof fn law_each_run_time_gives_an_event(
    raw: Seq<u8>,
    data: Seq<u8>,
    file: FileView,
    readings: Seq<time::Moment>,
)
    requires
        PrefetchParser.recognizes(raw),
        prefetch::scca_of(raw) == Some(data),
    ensures
        ({
            let events = PrefetchParser.timeline(raw, file, readings);
            let n = slot_count(data);
            &&& !is_readable(data) ==> events.len() == 0
            &&& is_readable(data) && set_slots(data, n) > 0 ==> {
                &&& events.len() == set_slots(data, n)
                &&& PrefetchParser.presents(raw, file) == 0
                &&& forall|i: int|
                    0 <= i < n && (#[trigger] lnk::set_time(data, first_slot(data) + 8 * i)) is Some ==> {
                        &&& 0 <= set_slots(data, i) < events.len()
                        &&& events[set_slots(data, i)].timestamp == lnk::set_time(
                            data,
                            first_slot(data) + 8 * i,
                        )->0
                    }
            }
            &&& is_readable(data) && set_slots(data, n) == 0 ==> {
                &&& events.len() == 1
                &&& file.modified is Some ==> events[0].timestamp == file.modified->0
                    && PrefetchParser.presents(raw, file) == 0
                &&& file.modified is None ==> events[0].timestamp == readings[0]
                    && PrefetchParser.presents(raw, file) == 1
            }
        }),
{
    lemma_slots(data, slot_count(data) as nat);
    lemma_fields(data);
}

proof fn lemma_fields(data: Seq<u8>)
    ensures
        prefetch::fields_of(data) is Some == is_readable(data),
        is_readable(data) ==> {
            let fields = prefetch::fields_of(data)->0;
            &&& fields.last_run_times == prefetch::run_times_at(
                data,
                first_slot(data),
                slot_count(data) as nat,
            )
            &&& fields.run_count == lnk::number_at(data, run_count_at(data))
            &&& fields.version == lnk::number_at(data, 0)
        },
{
}

// ---------------------------------------------------------------------
// Texts
// ---------------------------------------------------------------------

/// The units that a text has room for.
pub open spec fn room_of(room: int) -> int {
    if room < 1024 {
        room
    } else {
        1024
    }
}

/// A text of two-byte units ends at the first zero among those that it has room
/// for, at most 1024. It has to lie in the file with its room, and is none where
/// it is empty.
pub proof fn law_text_ends_at_zero(data: Seq<u8>, offset: int, room: int, n: int)
    requires
        0 <= offset,
        0 <= room,
    ensures
        ({
            let chars = room_of(room);
            let units = text::units_of(data.subrange(offset, offset + 2 * chars));
            let found = prefetch::utf16_cstr_at(data, offset, room);
            &&& offset + 2 * chars > data.len() ==> found is None
            &&& offset + 2 * chars <= data.len() && (chars == 0 || units[0] == 0) ==> found is None
            &&& (offset + 2 * chars <= data.len() && 0 < n <= chars && (forall|i: int|
                0 <= i < n ==> #[trigger] units[i] != 0) && (n == chars || units[n] == 0)) ==> found
                == Some(text::utf16_lossy(units.take(n)))
        }),
{
    let chars = room_of(room);
    let units = text::units_of(data.subrange(offset, offset + 2 * chars));
    if offset + 2 * chars <= data.len() && 0 < n <= chars && (forall|i: int|
        0 <= i < n ==> #[trigger] units[i] != 0) && (n == chars || units[n] == 0) {
        prefetch::lemma_before_zero(units, n);
        assert(units.take(n).len() == n);
    }
    if offset + 2 * chars <= data.len() {
        assert(reader::bytes_at(data, offset, 2 * chars) == Some(
            data.subrange(offset, offset + 2 * chars),
        ));
        assert(units.len() == chars);
    }
}

/// How many times a zero stands right behind something else.
pub open spec fn ended_runs(units: Seq<u16>) -> nat
    decreases units.len(),
{
    if units.len() < 2 {
        0
    } else {
        ended_runs(units.skip(1)) + if units[0] != 0 && units[1] == 0 {
            1nat
        } else {
            0
        }
    }
}

proof fn lemma_run(units: Seq<u16>, n: int)
    requires
        0 <= n < units.len(),
        forall|i: int| 0 <= i < n ==> units[i] != 0,
        units[n] == 0,
    ensures
        ended_runs(units) == ended_runs(units.skip(n + 1)) + if n > 0 {
            1nat
        } else {
            0
        },
    decreases n,
{
    if n == 0 {
        if units.len() == 1 {
            assert(units.skip(1).len() == 0);
        }
    } else {
        lemma_run(units.skip(1), n - 1);
        assert(units.skip(1).skip(n) =~= units.skip(n + 1));
    }
}

proof fn lemma_no_run(units: Seq<u16>)
    requires
        forall|i: int| 0 <= i < units.len() ==> units[i] != 0,
    ensures
        ended_runs(units) == 0,
    decreases units.len(),
{
    if units.len() >= 2 {
        assert forall|i: int| 0 <= i < units.skip(1).len() implies units.skip(1)[i] != 0 by {
            assert(units.skip(1)[i] == units[i + 1]);
        }
        lemma_no_run(units.skip(1));
    }
}

proof fn lemma_first_zero(units: Seq<u16>) -> (n: int)
    ensures
        0 <= n <= units.len(),
        forall|i: int| 0 <= i < n ==> units[i] != 0,
        n < units.len() ==> units[n] == 0,
        prefetch::before_zero(units).len() == n,
    decreases units.len(),
{
    if units.len() == 0 || units[0] == 0 {
        0
    } else {
        let rest = lemma_first_zero(units.skip(1));
        assert forall|i: int| 0 <= i < rest + 1 implies units[i] != 0 by {
            if i > 0 {
                assert(units.skip(1)[i - 1] == units[i]);
            }
        }
        rest + 1
    }
}

proof fn lemma_string_count(units: Seq<u16>, left: nat)
    ensures
        prefetch::strings_of(units, left).len() == if ended_runs(units) < left {
            ended_runs(units)
        } else {
            left
        },
    decreases units.len(),
{
    let n = lemma_first_zero(units);
    if n >= units.len() {
        lemma_no_run(units);
    } else {
        lemma_run(units, n);
        if left > 0 {
            if n == 0 {
                lemma_string_count(units.skip(1), left);
            } else {
                lemma_string_count(units.skip(n + 1), (left - 1) as nat);
            }
        }
    }
}

/// The units of the section of file names: at the offset in the number at 100,
/// of as many bytes as the number at 104 says. Empty where that does not lie in
/// the file.
pub open spec fn name_units(data: Seq<u8>) -> Seq<u16> {
    let start = lnk::number_at(data, 100) as int;
    let size = lnk::number_at(data, 104) as int;
    if data.len() >= 108 && start + size <= data.len() {
        text::units_of(data.subrange(start, start + size))
    } else {
        seq![]
    }
}

// ---------------------------------------------------------------------
// Events
// ---------------------------------------------------------------------

/// Whether a structure has a volume: a count at 112 that is not zero, and the
/// first eight bytes of the volume at the offset at 108.
pub open spec fn has_volume(data: Seq<u8>) -> bool {
    lnk::number_at(data, 112) != 0 && lnk::number_at(data, 108) + 8 <= data.len()
}

/// A number as eight hexadecimal digits.
pub open spec fn eight_digits(n: u32) -> Seq<char> {
    "0x"@ + text::hex(n as nat, 8, true)
}

/// Whether an event has a flag under a key, and the note that belongs to it
/// under another, just where something holds.
pub open spec fn is_flagged(event: EventView, key: Seq<char>, note: Seq<char>, text: Seq<char>, on: bool) -> bool {
    &&& event.extra.contains_key(key) == on
    &&& event.extra.contains_key(note) == on
    &&& on ==> event.extra[key] == json::Json::Flag(true) && event.extra[note] == json::Json::Text(
        text,
    )
}

proof fn lemma_key_lengths()
    ensures
        "scca_version"@.len() == 12,
        "run_count"@.len() == 9,
        "referenced_file_count"@.len() == 21,
        "prefetch_hash"@.len() == 13,
        "is_boot_prefetch"@.len() == 16,
        "volume_device_path"@.len() == 18,
        "volume_serial_number"@.len() == 20,
        "volume_created"@.len() == 14,
        "run_count_mismatch_suspected"@.len() == 28,
        "run_count_mismatch_note"@.len() == 23,
        "filename_hash_mismatch"@.len() == 22,
        "filename_hash_mismatch_note"@.len() == 27,
{
    reveal_strlit("scca_version");
    reveal_strlit("run_count");
    reveal_strlit("referenced_file_count");
    reveal_strlit("prefetch_hash");
    reveal_strlit("is_boot_prefetch");
    reveal_strlit("volume_device_path");
    reveal_strlit("volume_serial_number");
    reveal_strlit("volume_created");
    reveal_strlit("run_count_mismatch_suspected");
    reveal_strlit("run_count_mismatch_note");
    reveal_strlit("filename_hash_mismatch");
    reveal_strlit("filename_hash_mismatch_note");
}

/// The events of a file say what it holds: the version at 0, the executable's
/// name at 16, the hash at 76, the flag of boot files at 80, the run count, the
/// first volume and how many files it refers to.
pub proof fn law_run_events_say_what_is_read(
    raw: Seq<u8>,
    data: Seq<u8>,
    file: FileView,
    readings: Seq<time::Moment>,
    i: int,
)
    requires
        PrefetchParser.recognizes(raw),
        prefetch::scca_of(raw) == Some(data),
        0 <= i < PrefetchParser.timeline(raw, file, readings).len(),
    ensures
        ({
            let event = PrefetchParser.timeline(raw, file, readings)[i];
            let count = lnk::number_at(data, run_count_at(data));
            let name = match prefetch::utf16_cstr_at(data, 16, 30) {
                Some(name) => name,
                None => "(unknown)"@,
            };
            let volume = lnk::number_at(data, 108) as int;
            let files = ended_runs(name_units(data));
            &&& event.source == ArtifactSource::Prefetch
            &&& event.event_type == "prefetch_execution"@
            &&& event.artifact_path == file.path
            &&& event.target_path == Some(name)
            &&& event.description == "Executed: "@ + name + " (run count: "@ + text::decimal(
                count as nat,
            ) + ")"@
            &&& event.extra.contains_key("scca_version"@)
            &&& event.extra["scca_version"@] == json::Json::Number(lnk::number_at(data, 0) as int)
            &&& event.extra.contains_key("run_count"@)
            &&& event.extra["run_count"@] == json::Json::Number(count as int)
            &&& event.extra.contains_key("referenced_file_count"@)
            &&& event.extra["referenced_file_count"@] == json::Json::Number(
                if files < 4096 {
                    files as int
                } else {
                    4096
                },
            )
            &&& lnk::has_text(event, "prefetch_hash"@, Some(eight_digits(lnk::number_at(data, 76))))
            &&& event.extra.contains_key("is_boot_prefetch"@) == (lnk::number_at(data, 80) & 1 != 0)
            &&& lnk::number_at(data, 80) & 1 != 0 ==> event.extra["is_boot_prefetch"@]
                == json::Json::Flag(true)
            &&& lnk::has_text(
                event,
                "volume_device_path"@,
                if has_volume(data) {
                    prefetch::utf16_cstr_at(
                        data,
                        volume + lnk::number_at(data, volume),
                        lnk::number_at(data, volume + 4) as int,
                    )
                } else {
                    None
                },
            )
            &&& lnk::has_text(
                event,
                "volume_serial_number"@,
                if has_volume(data) && volume + 20 <= data.len() {
                    Some(eight_digits(lnk::number_at(data, volume + 16)))
                } else {
                    None
                },
            )
            &&& lnk::has_text(
                event,
                "volume_created"@,
                if has_volume(data) {
                    time::moment_text(lnk::set_time(data, volume + 8))
                } else {
                    None
                },
            )
            &&& is_flagged(
                event,
                "run_count_mismatch_suspected"@,
                "run_count_mismatch_note"@,
                "run_count and recorded last-run timestamp count are inconsistent — possible truncated or tampered prefetch file"@,
                (count == 0) != (set_slots(data, slot_count(data)) == 0),
            )
            &&& is_flagged(
                event,
                "filename_hash_mismatch"@,
                "filename_hash_mismatch_note"@,
                "prefetch hash embedded in the filename does not match the header's prefetch_hash field — this file was likely renamed, copied from another host, or otherwise planted rather than generated in place"@,
                prefetch::declared_hash(file.stem) is Some && prefetch::declared_hash(file.stem)
                    != Some(lnk::number_at(data, 76)),
            )
        }),
{
    lemma_fields(data);
    lemma_slots(data, slot_count(data) as nat);
    lemma_key_lengths();
    lemma_string_count(name_units(data), 4096);
    assert(prefetch::strings_of(seq![], 4096).len() == 0);
    let fields = prefetch::fields_of(data)->0;
    assert(fields.referenced_files.len() == prefetch::strings_of(name_units(data), 4096).len());
}

/// The hash that a file's name declares is the number in its last eight
/// characters, in base sixteen, behind a dash. A name without a dash there, and
/// a missing one, declares none.
pub proof fn law_declared_hash_stands_behind_a_dash(name: Seq<char>, c: char, digits: Seq<char>)
    requires
        digits.len() == 8,
    ensures
        prefetch::declared_hash(Some(name + seq![c] + digits)) == if c == '-' {
            text::number(digits, 16)
        } else {
            None
        },
        prefetch::declared_hash(Some(digits)) is None,
        name.len() < 9 ==> prefetch::declared_hash(Some(name)) is None,
        prefetch::declared_hash(None) is None,
{
    let stem = name + seq![c] + digits;
    assert(stem.skip(stem.len() - 8) =~= digits);
    assert(stem[stem.len() - 9] == c);
}

} // verus!
