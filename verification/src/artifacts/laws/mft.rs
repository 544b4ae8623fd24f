//! What the events of the Master File Table say, in terms of its bytes.

use vstd::prelude::*;

use super::lnk;
use crate::artifacts::mft;
use crate::artifacts::mft::MftParser;
use crate::artifacts::reader;
use crate::artifacts::{ArtifactParser, FileView};
use crate::text;
use crate::timeline::json;
use crate::timeline::time;
use crate::timeline::{ArtifactSource, EventView};

verus! {

// ---------------------------------------------------------------------
// Timestomping
// ---------------------------------------------------------------------

/// The nanoseconds from 1970 to a moment.
pub open spec fn nanos_of(m: time::Moment) -> int {
    1_000_000_000 * m.secs + m.nanos
}

/// How far two moments lie apart, in nanoseconds.
pub open spec fn distance(a: time::Moment, b: time::Moment) -> int {
    if nanos_of(a) <= nanos_of(b) {
        nanos_of(b) - nanos_of(a)
    } else {
        nanos_of(a) - nanos_of(b)
    }
}

/// A record is suspect just where both attributes say when the file was created
/// and these times lie at least 61 seconds apart, however far.
pub proof fn law_suspicion_starts_at_61_seconds(record: mft::RecordView)
    ensures
        record.std_info is None || record.file_name is None ==> !mft::timestomp_suspected(record),
        record.std_info is Some && record.file_name is Some ==> {
            let a = record.std_info->0.created;
            let b = record.file_name->0.created;
            &&& a is None || b is None ==> !mft::timestomp_suspected(record)
            &&& a is Some && b is Some ==> mft::timestomp_suspected(record) == (distance(
                a->0,
                b->0,
            ) >= 61_000_000_000)
        },
{
}

/// A record whose times lie further apart than those of a suspect one is
/// suspect too.
pub proof fn law_suspicion_grows_with_distance(
    near: mft::RecordView,
    far: mft::RecordView,
    a: time::Moment,
    b: time::Moment,
    c: time::Moment,
    d: time::Moment,
)
    requires
        near.std_info is Some && near.std_info->0.created == Some(a),
        near.file_name is Some && near.file_name->0.created == Some(b),
        far.std_info is Some && far.std_info->0.created == Some(c),
        far.file_name is Some && far.file_name->0.created == Some(d),
        distance(a, b) <= distance(c, d),
    ensures
        mft::timestomp_suspected(near) ==> mft::timestomp_suspected(far),
{
}

// ---------------------------------------------------------------------
// Attributes
// ---------------------------------------------------------------------

/// The content of an attribute stands where its byte at 8 is zero: as many bytes
/// as the number at 16 says, from the offset in the two bytes at 20 on.
pub proof fn law_content_of_resident_attribute(data: Seq<u8>, at: int)
    requires
        0 <= at,
    ensures
        ({
            let start = at + text::le16(data[at + 20], data[at + 21]);
            let end = start + lnk::number_at(data, at + 16);
            mft::attribute_content(data, at) == if at + 22 <= data.len() && data[at + 8] == 0 && end
                <= data.len() {
                Some(data.subrange(start, end))
            } else {
                None
            }
        }),
{
}

/// `$STANDARD_INFORMATION` starts with the times of creation, of the last
/// change, of the last change of the entry and of the last access.
pub proof fn law_standard_information_has_four_times(content: Seq<u8>)
    ensures
        mft::standard_information(content).created == lnk::set_time(content, 0),
        mft::standard_information(content).modified == lnk::set_time(content, 8),
        mft::standard_information(content).mft_modified == lnk::set_time(content, 16),
        mft::standard_information(content).accessed == lnk::set_time(content, 24),
{
}

/// `$FILE_NAME` has the parent at 0, the time of creation at 8, the number of
/// characters at 64, the namespace at 65 and the name at 66.
pub proof fn law_file_name_has_its_layout(content: Seq<u8>)
    ensures
        mft::file_name(content) is Some <==> content.len() >= 66 && content.len() >= 66 + 2
            * content[64],
        mft::file_name(content) matches Some(attr) ==> {
            &&& attr.parent_ref == reader::le32(content, 0) + 0x1_0000_0000 * reader::le32(
                content,
                4,
            )
            &&& attr.created == lnk::set_time(content, 8)
            &&& attr.namespace == content[65]
            &&& attr.name == text::utf16_lossy(
                text::units_of(content.subrange(66, 66 + 2 * content[64])),
            )
        },
{
}

/// Whether an attribute stands at `at`: eight bytes, a kind that is not the end
/// mark, and a length of at least eight that lies in the record.
pub open spec fn is_attribute(data: Seq<u8>, at: int) -> bool {
    &&& at + 8 <= data.len()
    &&& reader::le32(data, at) != 0xFFFF_FFFF
    &&& reader::le32(data, at + 4) >= 8
    &&& at + reader::le32(data, at + 4) <= data.len()
}

/// Where the `i`th attribute stands, if those before it are attributes.
pub open spec fn attribute_at(data: Seq<u8>, start: int, i: int) -> int
    decreases i,
{
    if i <= 0 {
        start
    } else {
        attribute_at(data, start, i - 1) + reader::le32(data, attribute_at(data, start, i - 1) + 4)
    }
}

/// The times of the last resident `$STANDARD_INFORMATION` among the first `n`
/// attributes.
pub open spec fn info_among(data: Seq<u8>, start: int, n: int) -> Option<mft::InfoView>
    decreases n,
{
    let at = attribute_at(data, start, n - 1);
    if n <= 0 {
        None
    } else if reader::le32(data, at) == 0x10 && mft::attribute_content(data, at) is Some {
        Some(mft::standard_information(mft::attribute_content(data, at)->0))
    } else {
        info_among(data, start, n - 1)
    }
}

/// The names of the resident `$FILE_NAME`s among the first `n` attributes.
pub open spec fn names_among(data: Seq<u8>, start: int, n: int) -> Seq<mft::NameView>
    decreases n,
{
    let at = attribute_at(data, start, n - 1);
    if n <= 0 {
        seq![]
    } else if reader::le32(data, at) == 0x30 && mft::attribute_content(data, at) is Some
        && mft::file_name(mft::attribute_content(data, at)->0) is Some {
        names_among(data, start, n - 1).push(mft::file_name(mft::attribute_content(data, at)->0)->0)
    } else {
        names_among(data, start, n - 1)
    }
}

/// Whether a name lies in the namespace Win32, 1, or Win32 and DOS, 3.
pub open spec fn in_win32(name: mft::NameView) -> bool {
    name.namespace == 1 || name.namespace == 3
}

/// Whether a name is the one to keep of several: the first Win32 one, the first
/// of all where there is none.
pub open spec fn is_kept(names: Seq<mft::NameView>, kept: Option<mft::NameView>) -> bool {
    &&& kept is Some == (names.len() > 0)
    &&& kept matches Some(name) ==> exists|i: int|
        0 <= i < names.len() && #[trigger] names[i] == name && (in_win32(name) ==> forall|j: int|
            0 <= j < i ==> !in_win32(#[trigger] names[j])) && (!in_win32(name) ==> i == 0
            && forall|j: int| 0 <= j < names.len() ==> !in_win32(#[trigger] names[j]))
}

proof fn lemma_kept(names: Seq<mft::NameView>, record: mft::RecordView, name: mft::NameView)
    requires
        is_kept(names, record.file_name),
    ensures
        is_kept(names.push(name), record.with_name(name).file_name),
{
    let more = names.push(name);
    assert(more[names.len() as int] == name);
    if let Some(old) = record.file_name {
        let i = choose|i: int|
            0 <= i < names.len() && #[trigger] names[i] == old && (in_win32(old) ==> forall|j: int|
                0 <= j < i ==> !in_win32(#[trigger] names[j])) && (!in_win32(old) ==> i == 0
                && forall|j: int| 0 <= j < names.len() ==> !in_win32(#[trigger] names[j]));
        assert(more[i] == old);
        assert forall|j: int| 0 <= j < names.len() implies #[trigger] more[j] == names[j] by {
        }
    }
}

proof fn lemma_attributes(
    data: Seq<u8>,
    start: int,
    i: int,
    n: int,
    record: mft::RecordView,
)
    requires
        0 <= start,
        0 <= i <= n <= 64,
        forall|j: int| 0 <= j < n ==> is_attribute(data, #[trigger] attribute_at(data, start, j)),
        n == 64 || !is_attribute(data, attribute_at(data, start, n)),
        attribute_at(data, start, i) >= 0,
        record.std_info == info_among(data, start, i),
        is_kept(names_among(data, start, i), record.file_name),
    ensures
        ({
            let after = mft::attributes(
                data,
                attribute_at(data, start, i),
                (64 - i) as nat,
                record,
            );
            &&& after.std_info == info_among(data, start, n)
            &&& is_kept(names_among(data, start, n), after.file_name)
        }),
    decreases n - i,
{
    let at = attribute_at(data, start, i);
    if i < n {
        assert(is_attribute(data, attribute_at(data, start, i)));
        let kind = reader::le32(data, at);
        let content = mft::attribute_content(data, at);
        let next = match content {
            Some(content) => record.with_attribute(kind, content),
            None => record,
        };
        if kind == 0x30 && content is Some {
            if let Some(name) = mft::file_name(content->0) {
                lemma_kept(names_among(data, start, i), record, name);
            }
        }
        lemma_attributes(data, start, i + 1, n, next);
    }
}

/// A record starts with "FILE" and has a valid update sequence, and its `n`
/// attributes stand one behind the other from the offset in its bytes at 20 on,
/// after the update sequence was undone. Of them count the last
/// `$STANDARD_INFORMATION` and the first Win32 name, else the first name.
pub proof fn law_record_is_what_its_attributes_say(record: Seq<u8>, n: int)
    requires
        record.len() >= 22,
        0 <= n <= 64,
        mft::fixed_up(record) is Some,
        ({
            let data = mft::fixed_up(record)->0;
            let start = text::le16(data[20], data[21]) as int;
            &&& forall|j: int|
                0 <= j < n ==> is_attribute(data, #[trigger] attribute_at(data, start, j))
            &&& n == 64 || !is_attribute(data, attribute_at(data, start, n))
        }),
        record[0] == 0x46 && record[1] == 0x49 && record[2] == 0x4C && record[3] == 0x45,
    ensures
        mft::record_of(record) is Some,
        ({
            let data = mft::fixed_up(record)->0;
            let start = text::le16(data[20], data[21]) as int;
            let found = mft::record_of(record)->0;
            &&& found.std_info == info_among(data, start, n)
            &&& is_kept(names_among(data, start, n), found.file_name)
        }),
{
    mft::law_fixup_changes_sector_tails_only(record);
    let data = mft::fixed_up(record)->0;
    let start = text::le16(data[20], data[21]) as int;
    lemma_attributes(
        data,
        start,
        0,
        n,
        mft::RecordView { std_info: None, file_name: None },
    );
}

/// What has no signature, or no valid update sequence, is no record: the array
/// lies at the offset at 4, has as many entries of two bytes as the number at 6
/// says, at least one, and lies in the record.
pub proof fn law_what_is_a_record(record: Seq<u8>)
    requires
        record.len() >= 22,
    ensures
        mft::record_of(record) is Some <==> {
            let usa = text::le16(record[4], record[5]);
            let count = text::le16(record[6], record[7]);
            &&& record[0] == 0x46 && record[1] == 0x49 && record[2] == 0x4C && record[3] == 0x45
            &&& count >= 1
            &&& usa + 2 * count <= record.len()
        },
{
    if mft::fixed_up(record) is Some {
        mft::law_fixup_changes_sector_tails_only(record);
    }
}

// ---------------------------------------------------------------------
// Events
// ---------------------------------------------------------------------

/// The time of a kind of event.
pub open spec fn time_of(info: mft::InfoView, kind: int) -> Option<time::Moment> {
    if kind == 0 {
        info.created
    } else if kind == 1 {
        info.modified
    } else if kind == 2 {
        info.mft_modified
    } else {
        info.accessed
    }
}

/// How many of the kinds from `kind` on have a time.
pub open spec fn timed_from(info: mft::InfoView, kind: int) -> int
    decreases 4 - kind,
{
    if kind >= 4 {
        0
    } else {
        timed_from(info, kind + 1) + if time_of(info, kind) is Some {
            1int
        } else {
            0
        }
    }
}

/// Whether an event is one of a kind, of a record at an entry.
pub open spec fn is_event_of(
    event: EventView,
    record: mft::RecordView,
    entry: int,
    path: Seq<char>,
    kind: int,
    moment: time::Moment,
) -> bool {
    let name = match record.file_name {
        Some(attr) => attr.name,
        None => "(unknown name)"@,
    };
    let suspect = kind == 0 && record.std_info is Some && record.file_name is Some
        && record.std_info->0.created is Some && record.file_name->0.created is Some && distance(
        record.std_info->0.created->0,
        record.file_name->0.created->0,
    ) >= 61_000_000_000;
    &&& event.timestamp == moment
    &&& event.source == ArtifactSource::Mft
    &&& event.artifact_path == path
    &&& event.target_path == Some(name)
    &&& kind == 0 ==> event.event_type == "mft_file_created"@ && event.description
        == "File "@ + "created"@ + ": "@ + name
    &&& kind == 1 ==> event.event_type == "mft_file_modified"@ && event.description
        == "File "@ + "modified"@ + ": "@ + name
    &&& kind == 2 ==> event.event_type == "mft_entry_modified"@ && event.description
        == "File "@ + "MFT entry modified"@ + ": "@ + name
    &&& kind == 3 ==> event.event_type == "mft_file_accessed"@ && event.description
        == "File "@ + "accessed"@ + ": "@ + name
    &&& event.extra.contains_key("mft_entry"@)
    &&& event.extra["mft_entry"@] == json::Json::Number(entry)
    &&& event.extra.contains_key("parent_mft_ref"@) == record.file_name is Some
    &&& event.extra.contains_key("namespace"@) == record.file_name is Some
    &&& record.file_name matches Some(attr) ==> {
        &&& event.extra["parent_mft_ref"@] == json::Json::Number(
            attr.parent_ref as int % 0x1_0000_0000_0000,
        )
        &&& event.extra["namespace"@] == json::Json::Number(attr.namespace as int)
    }
    &&& event.extra.contains_key("timestomp_suspected"@) == suspect
    &&& event.extra.contains_key("note"@) == suspect
    &&& suspect ==> {
        &&& event.extra["timestomp_suspected"@] == json::Json::Flag(true)
        &&& event.extra["note"@] == json::Json::Text(
            "$STANDARD_INFORMATION creation time differs from $FILE_NAME creation time by more than 60s"@,
        )
    }
}

proof fn lemma_kind_event(
    record: mft::RecordView,
    entry: int,
    path: Seq<char>,
    kind: int,
    moment: time::Moment,
)
    requires
        0 <= kind < 4,
    ensures
        is_event_of(
            mft::kind_event(record, entry, path, kind, moment),
            record,
            entry,
            path,
            kind,
            moment,
        ),
{
    reveal_strlit("mft_entry");
    reveal_strlit("parent_mft_ref");
    reveal_strlit("namespace");
    reveal_strlit("timestomp_suspected");
    reveal_strlit("note");
    assert("mft_entry"@.len() == 9 && "parent_mft_ref"@.len() == 14 && "namespace"@.len() == 9);
    assert("mft_entry"@[0] == 'm' && "namespace"@[0] == 'n');
    assert("timestomp_suspected"@.len() == 19 && "note"@.len() == 4);
    if let Some(attr) = record.file_name {
        let parent = attr.parent_ref;
        assert(parent & 0x0000_FFFF_FFFF_FFFF == parent % 0x1_0000_0000_0000) by (bit_vector);
    }
}

proof fn lemma_kinds(
    record: mft::RecordView,
    info: mft::InfoView,
    entry: int,
    path: Seq<char>,
    kind: int,
)
    requires
        0 <= kind <= 4,
    ensures
        ({
            let events = mft::kind_events(record, info, entry, path, kind);
            &&& events.len() == timed_from(info, kind)
            &&& forall|k: int|
                kind <= k < 4 && (#[trigger] time_of(info, k)) is Some ==> {
                    let i = timed_from(info, kind) - timed_from(info, k);
                    &&& 0 <= i < events.len()
                    &&& is_event_of(events[i], record, entry, path, k, time_of(info, k)->0)
                }
        }),
    decreases 4 - kind,
{
    if kind < 4 {
        lemma_kinds(record, info, entry, path, kind + 1);
        let rest = mft::kind_events(record, info, entry, path, kind + 1);
        let events = mft::kind_events(record, info, entry, path, kind);
        let shift = if time_of(info, kind) is Some {
            1int
        } else {
            0
        };
        if let Some(moment) = time_of(info, kind) {
            lemma_kind_event(record, entry, path, kind, moment);
            assert(events[0] == mft::kind_event(record, entry, path, kind, moment));
        }
        assert forall|k: int| kind < k < 4 && (#[trigger] time_of(info, k)) is Some implies {
            let i = timed_from(info, kind) - timed_from(info, k);
            &&& 0 <= i < events.len()
            &&& is_event_of(events[i], record, entry, path, k, time_of(info, k)->0)
        } by {
            let i = timed_from(info, kind + 1) - timed_from(info, k);
            assert(events[i + shift] == rest[i]);
        }
    }
}

/// A record gives an event for each of its four times that is set, in the order
/// of creation, change, change of the entry and access, and none without
/// `$STANDARD_INFORMATION`.
pub proof fn law_each_set_time_gives_an_event(record: mft::RecordView, entry: int, path: Seq<char>)
    ensures
        record.std_info is None ==> mft::record_events(record, entry, path).len() == 0,
        record.std_info matches Some(info) ==> {
            let events = mft::record_events(record, entry, path);
            &&& events.len() == timed_from(info, 0)
            &&& forall|k: int|
                0 <= k < 4 && (#[trigger] time_of(info, k)) is Some ==> {
                    let i = timed_from(info, 0) - timed_from(info, k);
                    &&& 0 <= i < events.len()
                    &&& is_event_of(events[i], record, entry, path, k, time_of(info, k)->0)
                }
        },
{
    if let Some(info) = record.std_info {
        lemma_kinds(record, info, entry, path, 0);
    }
}

/// The events of a table start with those of its first 1024 bytes, where they
/// are a record; a table that starts with anything else is not recognized.
pub proof fn law_first_entry_of_a_table(raw: Seq<u8>, file: FileView, readings: Seq<time::Moment>)
    requires
        raw.len() == 1024,
    ensures
        MftParser.recognizes(raw) == (raw[0] == 0x46 && raw[1] == 0x49 && raw[2] == 0x4C && raw[3]
            == 0x45),
        !MftParser.recognizes(raw) ==> MftParser.timeline(raw, file, readings).len() == 0,
        MftParser.recognizes(raw) ==> MftParser.timeline(raw, file, readings) == match mft::record_of(
            raw,
        ) {
            Some(record) => mft::record_events(record, 0, file.path),
            None => seq![],
        },
{
    assert(raw.subrange(0, 1024) =~= raw);
    reveal_with_fuel(mft::table_events, 2);
    if MftParser.recognizes(raw) {
        assert(mft::table_events(raw, 0, file.path) =~= seq![]);
        assert(mft::table_events(raw, 1, file.path) =~= mft::entry_events(raw, 0, file.path));
    }
}

/// Behind a table of whole entries, 1024 bytes that are no record change nothing
/// but the numbers of the entries behind them.
pub proof fn law_gaps_in_a_table_have_no_events(
    a: Seq<u8>,
    gap: Seq<u8>,
    file: FileView,
    readings: Seq<time::Moment>,
)
    requires
        a.len() % 1024 == 0,
        mft::is_record(a),
        gap.len() == 1024,
        mft::record_of(gap) is None,
    ensures
        MftParser.timeline(a + gap, file, readings) == MftParser.timeline(a, file, readings),
{
    mft::lemma_tables_append(a, gap, 1, file.path);
    assert(gap.subrange(0, 1024) =~= gap);
    reveal_with_fuel(mft::table_events, 2);
    assert(mft::table_events(gap, 1, file.path) =~= seq![]);
    assert(mft::all_raised(seq![], (a.len() / 1024) as int) =~= seq![]);
    assert((a + gap).len() / 1024 == a.len() / 1024 + 1);
    let events = mft::table_events(a, a.len() / 1024, file.path);
    assert(events + seq![] =~= events);
    assert(mft::is_record(a + gap));
}

/// Less than 1024 bytes behind a table of whole entries change nothing.
pub proof fn law_rest_of_a_table_has_no_events(
    a: Seq<u8>,
    rest: Seq<u8>,
    file: FileView,
    readings: Seq<time::Moment>,
)
    requires
        a.len() % 1024 == 0,
        mft::is_record(a),
        rest.len() < 1024,
    ensures
        MftParser.timeline(a + rest, file, readings) == MftParser.timeline(a, file, readings),
        MftParser.presents(a + rest, file) == 0,
{
    assert(mft::is_record(a + rest));
    assert((a + rest).len() / 1024 == a.len() / 1024);
    lemma_same_entries(a, rest, a.len() / 1024, file.path);
}

proof fn lemma_same_entries(a: Seq<u8>, rest: Seq<u8>, n: nat, path: Seq<char>)
    requires
        1024 * n <= a.len(),
    ensures
        mft::table_events(a + rest, n, path) == mft::table_events(a, n, path),
    decreases n,
{
    if n > 0 {
        lemma_same_entries(a, rest, (n - 1) as nat, path);
        let e = n - 1;
        assert((a + rest).subrange(1024 * e, 1024 * e + 1024) =~= a.subrange(
            1024 * e,
            1024 * e + 1024,
        ));
    }
}

// ---------------------------------------------------------------------
// Update sequence
// ---------------------------------------------------------------------

/// Every sector that has an entry in the Update Sequence Array, but for the
/// first entry, ends with its entry after the fixup, if the array lies clear of
/// the ends of sectors. The array lies at the offset at 4 and has as many entries
/// as the number at 6 says.
pub proof fn law_every_sector_end_is_restored(record: Seq<u8>, sector: int)
    requires
        record.len() >= 8,
        ({
            let usa = text::le16(record[4], record[5]) as int;
            let count = text::le16(record[6], record[7]) as int;
            &&& usa + 2 * count <= record.len()
            &&& forall|i: int| usa <= i < usa + 2 * count ==> #[trigger] (i % 512) < 510
            &&& 1 <= sector < count
            &&& 512 * sector <= record.len()
        }),
    ensures
        mft::fixed_up(record) is Some,
        ({
            let usa = text::le16(record[4], record[5]) as int;
            let data = mft::fixed_up(record)->0;
            &&& data.len() == record.len()
            &&& data[512 * sector - 2] == record[usa + 2 * sector]
            &&& data[512 * sector - 1] == record[usa + 2 * sector + 1]
        }),
{
    let usa = text::le16(record[4], record[5]) as int;
    let count = text::le16(record[6], record[7]);
    assert(mft::apart_from_tails(usa, count as int));
    assert(sector <= mft::covered_sectors(record.len(), count));
    mft::law_fixup_restores_sectors(record, sector);
    mft::law_fixup_changes_sector_tails_only(record);
}

/// Bytes that are not at the end of a sector, and bytes of sectors without an
/// entry in the array, stay as they are.
pub proof fn law_other_bytes_of_a_record_stay(record: Seq<u8>, i: int)
    requires
        record.len() >= 8,
        mft::fixed_up(record) is Some,
        0 <= i < record.len(),
        i % 512 < 510 || i / 512 + 1 >= text::le16(record[6], record[7]),
    ensures
        mft::fixed_up(record)->0[i] == record[i],
{
    let usa = text::le16(record[4], record[5]) as int;
    let count = text::le16(record[6], record[7]);
    lemma_kept_bytes(record, usa, mft::covered_sectors(record.len(), count), i);
}

proof fn lemma_kept_bytes(record: Seq<u8>, usa: int, sectors: nat, i: int)
    requires
        0 <= i < record.len(),
        512 * sectors <= record.len(),
        i % 512 < 510 || i / 512 >= sectors,
    ensures
        mft::restored(record, usa, sectors).len() == record.len(),
        mft::restored(record, usa, sectors)[i] == record[i],
    decreases sectors,
{
    if sectors > 0 {
        lemma_kept_bytes(record, usa, (sectors - 1) as nat, i);
        let end = 512 * sectors;
        assert(end - 2 != i && end - 1 != i);
    }
}

} // verus!
