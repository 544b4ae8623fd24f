//! The NTFS Master File Table ($MFT).
//!
//! FILE records, entries of 1024 bytes as on nearly every volume, are read
//! straight from an exported `$MFT`. Two attributes of each are of interest:
//!
//! - `$STANDARD_INFORMATION` (0x10) holds the four timestamps that most tools
//!   show, and that every application updates.
//! - `$FILE_NAME` (0x30) holds the name, the reference to the parent directory
//!   and its own copy of the timestamps. The NTFS driver alone updates these,
//!   on a rename or a move. Most tools that forge timestamps patch only
//!   `$STANDARD_INFORMATION`, so that creation times which differ between the
//!   two hint at timestomping.
//!
//! Full paths are not put together: that takes the whole table. The parent
//! reference stands in an event's extra fields for other tools to resolve.

use vstd::prelude::*;

use super::reader;
use super::reader::Reader;
use super::{ArtifactParser, FileView, SourceFile};
use crate::text;
use crate::timeline;
use crate::timeline::json;
use crate::timeline::time;
use crate::timeline::time::{Clock, Timestamp};
use crate::timeline::{ArtifactSource, EventView, TimelineEvent};

verus! {

pub const RECORD_SIZE: usize = 1024;

pub const SECTOR_SIZE: usize = 512;

pub const ATTR_STANDARD_INFORMATION: u32 = 0x10;

pub const ATTR_FILE_NAME: u32 = 0x30;

pub const ATTR_END: u32 = 0xFFFF_FFFF;

pub const MAX_ATTRIBUTES: usize = 64;

/// Creation times that lie further apart than this many seconds are suspect.
pub const TIMESTOMP_SECS: u32 = 60;

/// Whether bytes start with the signature `FILE`.
pub open spec fn is_record(data: Seq<u8>) -> bool {
    data.len() >= 4 && data[0] == 0x46 && data[1] == 0x49 && data[2] == 0x4C && data[3] == 0x45
}

fn has_signature(data: &[u8]) -> (r: bool)
    ensures
        r == is_record(data@),
{
    data.len() >= 4 && data[0] == 0x46 && data[1] == 0x49 && data[2] == 0x4C && data[3] == 0x45
}

// ---------------------------------------------------------------------
// Update sequence
// ---------------------------------------------------------------------

/// A record with the last two bytes of its first `sectors` sectors taken from
/// the Update Sequence Array at `usa`.
pub open spec fn restored(record: Seq<u8>, usa: int, sectors: nat) -> Seq<u8>
    decreases sectors,
{
    if sectors == 0 {
        record
    } else {
        let before = restored(record, usa, (sectors - 1) as nat);
        let end = SECTOR_SIZE * sectors;
        let entry = usa + 2 * sectors;
        let half = before.update(end - 2, before[entry]);
        half.update(end - 1, half[entry + 1])
    }
}

/// The sectors of a record that the Update Sequence Array covers. It starts
/// with the check value, which is no sector's.
pub open spec fn covered_sectors(len: nat, usa_count: u16) -> nat {
    if usa_count - 1 <= len / 512 {
        (usa_count - 1) as nat
    } else {
        len / 512
    }
}

/// A record as it was before it was written. On disk a check value stands at
/// the end of each sector, and what belongs there stands in the Update
/// Sequence Array. `None` where the array does not lie in the record.
pub open spec fn fixed_up(record: Seq<u8>) -> Option<Seq<u8>> {
    match (reader::u16_at(record, 4), reader::u16_at(record, 6)) {
        (Some(usa), Some(count)) => if count == 0 || usa + 2 * count > record.len() {
            None
        } else {
            Some(restored(record, usa as int, covered_sectors(record.len(), count)))
        },
        _ => None,
    }
}

proof fn lemma_restored_len(record: Seq<u8>, usa: int, sectors: nat)
    requires
        512 * sectors <= record.len(),
    ensures
        restored(record, usa, sectors).len() == record.len(),
    decreases sectors,
{
    if sectors > 0 {
        lemma_restored_len(record, usa, (sectors - 1) as nat);
    }
}

fn apply_fixup(record: &mut Vec<u8>) -> (ok: bool)
    ensures
        ok == fixed_up(old(record)@) is Some,
        ok ==> final(record)@ == fixed_up(old(record)@)->0,
        !ok ==> final(record)@ == old(record)@,
{
    let len: usize = record.len();
    let (usa_offset, usa_count) = {
        let r = Reader::new(record.as_slice());
        match (r.u16(4), r.u16(6)) {
            (Some(usa), Some(count)) => (usa as usize, count as usize),
            _ => {
                return false;
            },
        }
    };
    if usa_count == 0 || usa_offset + 2 * usa_count > len {
        return false;
    }
    let mut sector: usize = 0;
    while sector < usa_count - 1 && SECTOR_SIZE * (sector + 1) <= len
        invariant
            1 <= usa_count <= 0xFFFF,
            usa_offset + 2 * usa_count <= len,
            len == old(record)@.len(),
            record@.len() == len,
            sector <= usa_count - 1,
            sector <= len as nat / 512,
            record@ == restored(old(record)@, usa_offset as int, sector as nat),
        decreases usa_count - sector,
    {
        let sector_end: usize = SECTOR_SIZE * (sector + 1);
        let entry: usize = usa_offset + 2 + 2 * sector;
        let first = record[entry];
        record[sector_end - 2] = first;
        let second = record[entry + 1];
        record[sector_end - 1] = second;
        sector = sector + 1;
        proof {
            lemma_restored_len(old(record)@, usa_offset as int, sector as nat);
        }
    }
    assert(sector == covered_sectors(len as nat, usa_count as u16));
    true
}

/// The fixup keeps a record's length, and changes no byte but the last two of
/// a sector.
pub proof fn law_fixup_changes_sector_tails_only(record: Seq<u8>)
    requires
        fixed_up(record) is Some,
    ensures
        fixed_up(record)->0.len() == record.len(),
        forall|i: int|
            0 <= i < record.len() && i % 512 < 510 ==> fixed_up(record)->0[i] == #[trigger] record[i],
{
    let usa = reader::u16_at(record, 4)->0 as int;
    let count = reader::u16_at(record, 6)->0;
    lemma_tails_only(record, usa, covered_sectors(record.len(), count));
}

proof fn lemma_tails_only(record: Seq<u8>, usa: int, sectors: nat)
    requires
        512 * sectors <= record.len(),
    ensures
        restored(record, usa, sectors).len() == record.len(),
        forall|i: int|
            0 <= i < record.len() && i % 512 < 510 ==> restored(record, usa, sectors)[i]
                == #[trigger] record[i],
    decreases sectors,
{
    if sectors > 0 {
        lemma_tails_only(record, usa, (sectors - 1) as nat);
    }
}

/// Whether no byte of the Update Sequence Array lies at the end of a sector.
pub open spec fn apart_from_tails(usa: int, count: int) -> bool {
    forall|i: int| usa <= i < usa + 2 * count ==> #[trigger] (i % 512) < 510
}

/// The fixup puts each entry of the Update Sequence Array at the end of its
/// sector, where the array itself lies clear of the ends of sectors.
pub proof fn law_fixup_restores_sectors(record: Seq<u8>, sector: int)
    requires
        fixed_up(record) is Some,
        apart_from_tails(
            reader::u16_at(record, 4)->0 as int,
            reader::u16_at(record, 6)->0 as int,
        ),
        1 <= sector <= covered_sectors(record.len(), reader::u16_at(record, 6)->0),
    ensures
        ({
            let usa = reader::u16_at(record, 4)->0;
            &&& fixed_up(record)->0[512 * sector - 2] == record[usa + 2 * sector]
            &&& fixed_up(record)->0[512 * sector - 1] == record[usa + 2 * sector + 1]
        }),
{
    let usa = reader::u16_at(record, 4)->0 as int;
    let count = reader::u16_at(record, 6)->0;
    lemma_sector_restored(record, usa, count as int, covered_sectors(record.len(), count), sector);
}

proof fn lemma_sector_restored(record: Seq<u8>, usa: int, count: int, sectors: nat, sector: int)
    requires
        0 <= usa,
        usa + 2 * count <= record.len(),
        sectors < count,
        512 * sectors <= record.len(),
        apart_from_tails(usa, count),
        1 <= sector <= sectors,
    ensures
        restored(record, usa, sectors)[512 * sector - 2] == record[usa + 2 * sector],
        restored(record, usa, sectors)[512 * sector - 1] == record[usa + 2 * sector + 1],
    decreases sectors,
{
    let before = restored(record, usa, (sectors - 1) as nat);
    lemma_tails_only(record, usa, (sectors - 1) as nat);
    let entry = usa + 2 * sectors;
    assert(entry % 512 < 510 && (entry + 1) % 512 < 510);
    assert(record[entry] == before[entry]);
    assert(record[entry + 1] == before[entry + 1]);
    if sector < sectors {
        lemma_sector_restored(record, usa, count, (sectors - 1) as nat, sector);
    }
}

// ---------------------------------------------------------------------
// Attributes
// ---------------------------------------------------------------------

/// The moments in `$STANDARD_INFORMATION`.
pub struct InfoView {
    pub created: Option<time::Moment>,
    pub modified: Option<time::Moment>,
    pub mft_modified: Option<time::Moment>,
    pub accessed: Option<time::Moment>,
}

/// What `$FILE_NAME` says.
pub struct NameView {
    pub name: Seq<char>,
    pub namespace: u8,
    pub parent_ref: u64,
    pub created: Option<time::Moment>,
}

struct StandardInfo {
    created: Option<Timestamp>,
    modified: Option<Timestamp>,
    mft_modified: Option<Timestamp>,
    accessed: Option<Timestamp>,
}

impl View for StandardInfo {
    type V = InfoView;

    closed spec fn view(&self) -> InfoView {
        InfoView {
            created: time::moment_of(self.created),
            modified: time::moment_of(self.modified),
            mft_modified: time::moment_of(self.mft_modified),
            accessed: time::moment_of(self.accessed),
        }
    }
}

struct FileNameAttr {
    name: String,
    namespace: u8,
    parent_ref: u64,
    created: Option<Timestamp>,
}

impl View for FileNameAttr {
    type V = NameView;

    closed spec fn view(&self) -> NameView {
        NameView {
            name: self.name@,
            namespace: self.namespace,
            parent_ref: self.parent_ref,
            created: time::moment_of(self.created),
        }
    }
}

/// The moments in the content of a `$STANDARD_INFORMATION`.
pub open spec fn standard_information(content: Seq<u8>) -> InfoView {
    InfoView {
        created: super::moment_at(content, 0),
        modified: super::moment_at(content, 8),
        mft_modified: super::moment_at(content, 16),
        accessed: super::moment_at(content, 24),
    }
}

/// What the content of a `$FILE_NAME` says, `None` where it is cut off.
pub open spec fn file_name(content: Seq<u8>) -> Option<NameView> {
    if content.len() < 66 || content.len() < 66 + 2 * content[64] {
        None
    } else {
        Some(
            NameView {
                name: text::utf16_lossy(
                    text::units_of(content.subrange(66, 66 + 2 * content[64])),
                ),
                namespace: content[65],
                parent_ref: reader::u64_at(content, 0)->0,
                created: super::moment_at(content, 8),
            },
        )
    }
}

fn parse_standard_information(content: &[u8]) -> (info: StandardInfo)
    ensures
        info@ == standard_information(content@),
{
    let r = Reader::new(content);
    StandardInfo {
        created: super::read_moment(&r, 0),
        modified: super::read_moment(&r, 8),
        mft_modified: super::read_moment(&r, 16),
        accessed: super::read_moment(&r, 24),
    }
}

fn parse_file_name(content: &[u8]) -> (attr: Option<FileNameAttr>)
    ensures
        attr is Some == file_name(content@) is Some,
        attr matches Some(a) ==> a@ == file_name(content@)->0,
{
    let r = Reader::new(content);
    let parent_ref: u64 = match r.u64(0) {
        Some(parent_ref) => parent_ref,
        None => {
            return None;
        },
    };
    let created = super::read_moment(&r, 8);
    if content.len() < 66 {
        return None;
    }
    let namespace = content[65];
    let name_bytes = match r.slice(66, 2 * content[64] as usize) {
        Some(bytes) => bytes,
        None => {
            return None;
        },
    };
    let name = text::utf16le_text(name_bytes);
    Some(FileNameAttr { name, namespace, parent_ref, created })
}

/// Whether a name lies in the Win32 namespace, alone or with DOS.
pub open spec fn is_win32(namespace: u8) -> bool {
    namespace == 1 || namespace == 3
}

/// What is kept of a FILE record: the last `$STANDARD_INFORMATION` and one
/// `$FILE_NAME`.
pub struct RecordView {
    pub std_info: Option<InfoView>,
    pub file_name: Option<NameView>,
}

impl RecordView {
    /// The record with one more name. Files often have a short and a long
    /// one: a Win32 name is preferred, else the first stays.
    pub open spec fn with_name(self, name: NameView) -> RecordView {
        match self.file_name {
            Some(kept) => if is_win32(name.namespace) && !is_win32(kept.namespace) {
                RecordView { file_name: Some(name), ..self }
            } else {
                self
            },
            None => RecordView { file_name: Some(name), ..self },
        }
    }

    /// The record with the attribute of a kind and a content.
    pub open spec fn with_attribute(self, kind: u32, content: Seq<u8>) -> RecordView {
        if kind == ATTR_STANDARD_INFORMATION {
            RecordView { std_info: Some(standard_information(content)), ..self }
        } else if kind == ATTR_FILE_NAME {
            match file_name(content) {
                Some(name) => self.with_name(name),
                None => self,
            }
        } else {
            self
        }
    }
}

/// The content of the attribute at `offset`, where it is resident.
pub open spec fn attribute_content(data: Seq<u8>, offset: int) -> Option<Seq<u8>> {
    if reader::byte_at(data, offset + 8) != Some(0u8) {
        None
    } else {
        match (reader::u32_at(data, offset + 16), reader::u16_at(data, offset + 20)) {
            (Some(len), Some(start)) => reader::bytes_at(data, offset + start, len as int),
            _ => None,
        }
    }
}

/// What the attributes at `offset`, `left` of them at most, make of a record.
/// They end at the end mark, or where one has an impossible length.
pub open spec fn attributes(data: Seq<u8>, offset: int, left: nat, record: RecordView) -> RecordView
    decreases left,
{
    match (reader::u32_at(data, offset), reader::u32_at(data, offset + 4)) {
        (Some(kind), Some(len)) => if left == 0 || kind == ATTR_END || len < 8 || offset + len
            > data.len() {
            record
        } else {
            attributes(
                data,
                offset + len,
                (left - 1) as nat,
                match attribute_content(data, offset) {
                    Some(content) => record.with_attribute(kind, content),
                    None => record,
                },
            )
        },
        _ => record,
    }
}

/// What is kept of a FILE record, `None` where it is none or has no valid
/// update sequence.
pub open spec fn record_of(record: Seq<u8>) -> Option<RecordView> {
    if !is_record(record) {
        None
    } else {
        match fixed_up(record) {
            Some(data) => match reader::u16_at(data, 20) {
                Some(start) => Some(
                    attributes(
                        data,
                        start as int,
                        MAX_ATTRIBUTES as nat,
                        RecordView { std_info: None, file_name: None },
                    ),
                ),
                None => None,
            },
            None => None,
        }
    }
}

/// What is kept of a FILE record.
struct MftRecord {
    std_info: Option<StandardInfo>,
    file_name: Option<FileNameAttr>,
}

impl View for MftRecord {
    type V = RecordView;

    closed spec fn view(&self) -> RecordView {
        RecordView {
            std_info: match self.std_info {
                Some(info) => Some(info@),
                None => None,
            },
            file_name: match self.file_name {
                Some(name) => Some(name@),
                None => None,
            },
        }
    }
}

impl MftRecord {
    fn add_name(&mut self, name: FileNameAttr)
        ensures
            final(self)@ == old(self)@.with_name(name@),
    {
        let better = match &self.file_name {
            Some(kept) => (name.namespace == 1 || name.namespace == 3) && !(kept.namespace == 1
                || kept.namespace == 3),
            None => true,
        };
        if better {
            self.file_name = Some(name);
        }
    }

    fn add_attribute(&mut self, kind: u32, content: &[u8])
        ensures
            final(self)@ == old(self)@.with_attribute(kind, content@),
    {
        if kind == ATTR_STANDARD_INFORMATION {
            self.std_info = Some(parse_standard_information(content));
        } else if kind == ATTR_FILE_NAME {
            if let Some(name) = parse_file_name(content) {
                self.add_name(name);
            }
        }
    }
}

fn read_content<'a>(r: &Reader<'a>, offset: usize) -> (content: Option<&'a [u8]>)
    ensures
        content is Some == attribute_content(r@, offset as int) is Some,
        content matches Some(c) ==> c@ == attribute_content(r@, offset as int)->0,
{
    let resident = match r.slice(offset.saturating_add(8), 1) {
        Some(b) => b[0] == 0,
        None => false,
    };
    if !resident {
        return None;
    }
    match (r.u32(offset.saturating_add(16)), r.u16(offset.saturating_add(20))) {
        (Some(len), Some(start)) => match offset.checked_add(start as usize) {
            Some(at) => r.slice(at, len as usize),
            None => None,
        },
        _ => None,
    }
}

fn parse_attributes(r: &Reader, start: usize) -> (record: MftRecord)
    ensures
        record@ == attributes(
            r@,
            start as int,
            MAX_ATTRIBUTES as nat,
            RecordView { std_info: None, file_name: None },
        ),
{
    let mut record = MftRecord { std_info: None, file_name: None };
    let ghost whole = attributes(r@, start as int, MAX_ATTRIBUTES as nat, record@);
    let mut offset: usize = start;
    let mut left: usize = MAX_ATTRIBUTES;
    while left > 0
        invariant
            attributes(r@, offset as int, left as nat, record@) == whole,
        ensures
            record@ == whole,
        decreases left,
    {
        let (kind, len) = match (r.u32(offset), r.u32(offset.saturating_add(4))) {
            (Some(kind), Some(len)) => (kind, len),
            _ => {
                break ;
            },
        };
        if kind == ATTR_END || len < 8 {
            break ;
        }
        let next: usize = match r.slice(offset, len as usize) {
            Some(_) => offset + len as usize,
            None => {
                break ;
            },
        };
        if let Some(content) = read_content(r, offset) {
            record.add_attribute(kind, content);
        }
        offset = next;
        left = left - 1;
    }
    record
}

fn parse_record(record: &[u8]) -> (rec: Option<MftRecord>)
    ensures
        rec is Some == record_of(record@) is Some,
        rec matches Some(m) ==> m@ == record_of(record@)->0,
{
    if !has_signature(record) {
        return None;
    }
    let mut buf: Vec<u8> = vstd::slice::slice_to_vec(record);
    if !apply_fixup(&mut buf) {
        return None;
    }
    let r = Reader::new(buf.as_slice());
    match r.u16(20) {
        Some(start) => Some(parse_attributes(&r, start as usize)),
        None => None,
    }
}

// ---------------------------------------------------------------------
// The events of a record
// ---------------------------------------------------------------------

/// The name of a record's file, as its events give it.
pub open spec fn shown_name(record: RecordView) -> Seq<char> {
    match record.file_name {
        Some(name) => name.name,
        None => "(unknown name)"@,
    }
}

/// When the file was created, after `$STANDARD_INFORMATION` and after
/// `$FILE_NAME`, where both say so.
pub open spec fn creations(record: RecordView) -> Option<(time::Moment, time::Moment)> {
    match (record.std_info, record.file_name) {
        (Some(info), Some(name)) => match (info.created, name.created) {
            (Some(a), Some(b)) => Some((a, b)),
            _ => None,
        },
        _ => None,
    }
}

/// Whether the creation times of a record lie more than 60 whole seconds apart.
pub open spec fn timestomp_suspected(record: RecordView) -> bool {
    match creations(record) {
        Some((a, b)) => time::nanos_between(a, b) >= 61_000_000_000 || time::nanos_between(b, a)
            >= 61_000_000_000,
        None => false,
    }
}

/// One of the four moments in `$STANDARD_INFORMATION`.
pub open spec fn info_moment(info: InfoView, kind: int) -> Option<time::Moment> {
    if kind == 0 {
        info.created
    } else if kind == 1 {
        info.modified
    } else if kind == 2 {
        info.mft_modified
    } else {
        info.accessed
    }
}

/// The type of the event of one of the four moments.
pub open spec fn kind_type(kind: int) -> Seq<char> {
    if kind == 0 {
        "mft_file_created"@
    } else if kind == 1 {
        "mft_file_modified"@
    } else if kind == 2 {
        "mft_entry_modified"@
    } else {
        "mft_file_accessed"@
    }
}

/// What happened at one of the four moments.
pub open spec fn kind_verb(kind: int) -> Seq<char> {
    if kind == 0 {
        "created"@
    } else if kind == 1 {
        "modified"@
    } else if kind == 2 {
        "MFT entry modified"@
    } else {
        "accessed"@
    }
}

/// The event of one of the four moments.
pub open spec fn kind_event(
    record: RecordView,
    entry: int,
    path: Seq<char>,
    kind: int,
    moment: time::Moment,
) -> EventView {
    let name = shown_name(record);
    let event = EventView::new(
        moment,
        ArtifactSource::Mft,
        kind_type(kind),
        "File "@ + kind_verb(kind) + ": "@ + name,
        path,
    ).with_target(name).with_number("mft_entry"@, entry);
    let event = match record.file_name {
        Some(attr) => event.with_number(
            "parent_mft_ref"@,
            (attr.parent_ref & 0x0000_FFFF_FFFF_FFFF) as int,
        ).with_number("namespace"@, attr.namespace as int),
        None => event,
    };
    if kind == 0 && timestomp_suspected(record) {
        event.with_flag("timestomp_suspected"@, true).with_text(
            "note"@,
            "$STANDARD_INFORMATION creation time differs from $FILE_NAME creation time by more than 60s"@,
        )
    } else {
        event
    }
}

/// The events of the four moments from `kind` on, of those that are set.
pub open spec fn kind_events(
    record: RecordView,
    info: InfoView,
    entry: int,
    path: Seq<char>,
    kind: int,
) -> Seq<EventView>
    decreases 4 - kind,
{
    if kind >= 4 {
        seq![]
    } else {
        let rest = kind_events(record, info, entry, path, kind + 1);
        match info_moment(info, kind) {
            Some(moment) => seq![kind_event(record, entry, path, kind, moment)] + rest,
            None => rest,
        }
    }
}

/// The events of a record. One without `$STANDARD_INFORMATION` has none.
pub open spec fn record_events(record: RecordView, entry: int, path: Seq<char>) -> Seq<EventView> {
    match record.std_info {
        Some(info) => kind_events(record, info, entry, path, 0),
        None => seq![],
    }
}

fn suspect_timestomp(record: &MftRecord) -> (r: bool)
    ensures
        r == timestomp_suspected(record@),
{
    match (&record.std_info, &record.file_name) {
        (Some(info), Some(name)) => match (&info.created, &name.created) {
            (Some(a), Some(b)) => time::further_apart(a, b, TIMESTOMP_SECS),
            _ => false,
        },
        _ => false,
    }
}

fn build_event(
    record: &MftRecord,
    entry: u64,
    file: &SourceFile,
    kind: usize,
    timestamp: Timestamp,
) -> (r: TimelineEvent)
    ensures
        r@ == kind_event(record@, entry as int, file@.path, kind as int, timestamp@),
{
    let name = match &record.file_name {
        Some(attr) => attr.name.clone(),
        None => "(unknown name)".to_string(),
    };
    let (event_type, verb) = if kind == 0 {
        ("mft_file_created", "created")
    } else if kind == 1 {
        ("mft_file_modified", "modified")
    } else if kind == 2 {
        ("mft_entry_modified", "MFT entry modified")
    } else {
        ("mft_file_accessed", "accessed")
    };
    let mut description = "File ".to_string();
    description.append(verb);
    description.append(": ");
    description.append(name.as_str());
    let mut event = TimelineEvent::new(
        timestamp,
        ArtifactSource::Mft,
        event_type,
        description,
        file.path.clone(),
    ).with_target(name).with_number("mft_entry", entry);
    if let Some(attr) = &record.file_name {
        event = event.with_number("parent_mft_ref", attr.parent_ref & 0x0000_FFFF_FFFF_FFFF);
        event = event.with_number("namespace", attr.namespace as u64);
    }
    if kind == 0 && suspect_timestomp(record) {
        event = event.with_flag("timestomp_suspected", true).with_text(
            "note",
            "$STANDARD_INFORMATION creation time differs from $FILE_NAME creation time by more than 60s".to_string(),
        );
    }
    event
}

fn build_events(record: &MftRecord, entry: u64, file: &SourceFile, out: &mut Vec<TimelineEvent>)
    ensures
        timeline::views(final(out)@) == timeline::views(old(out)@) + record_events(
            record@,
            entry as int,
            file@.path,
        ),
{
    let info = match &record.std_info {
        Some(info) => info,
        None => {
            assert(timeline::views(out@) =~= timeline::views(out@) + seq![]);
            return ;
        },
    };
    let ghost whole = timeline::views(out@) + kind_events(
        record@,
        info@,
        entry as int,
        file@.path,
        0,
    );
    let mut kind: usize = 0;
    while kind < 4
        invariant
            kind <= 4,
            timeline::views(out@) + kind_events(
                record@,
                info@,
                entry as int,
                file@.path,
                kind as int,
            ) == whole,
        decreases 4 - kind,
    {
        let moment = if kind == 0 {
            info.created
        } else if kind == 1 {
            info.modified
        } else if kind == 2 {
            info.mft_modified
        } else {
            info.accessed
        };
        let ghost before = timeline::views(out@);
        let ghost rest = kind_events(record@, info@, entry as int, file@.path, kind + 1);
        assert(time::moment_of(moment) == info_moment(info@, kind as int));
        if let Some(timestamp) = moment {
            let event = build_event(record, entry, file, kind, timestamp);
            let ghost shown = event@;
            out.push(event);
            assert(timeline::views(out@) =~= before.push(shown));
            assert(before.push(shown) + rest =~= before + (seq![shown] + rest));
        }
        kind = kind + 1;
    }
    assert(timeline::views(out@) + seq![] =~= timeline::views(out@));
}

// ---------------------------------------------------------------------
// The table
// ---------------------------------------------------------------------

/// The events of the record at an entry of the table.
pub open spec fn entry_events(raw: Seq<u8>, entry: int, path: Seq<char>) -> Seq<EventView> {
    match record_of(raw.subrange(1024 * entry, 1024 * entry + 1024)) {
        Some(record) => record_events(record, entry, path),
        None => seq![],
    }
}

/// The events of the table's first `entries` entries.
pub open spec fn table_events(raw: Seq<u8>, entries: nat, path: Seq<char>) -> Seq<EventView>
    decreases entries,
{
    if entries == 0 {
        seq![]
    } else {
        table_events(raw, (entries - 1) as nat, path) + entry_events(raw, entries - 1, path)
    }
}

/// The parser of the Master File Table.
pub struct MftParser;

impl ArtifactParser for MftParser {
    open spec fn source(&self) -> ArtifactSource {
        ArtifactSource::Mft
    }

    open spec fn recognizes(&self, raw: Seq<u8>) -> bool {
        is_record(raw)
    }

    open spec fn presents(&self, raw: Seq<u8>, file: FileView) -> nat {
        0
    }

    open spec fn timeline(&self, raw: Seq<u8>, file: FileView, readings: Seq<time::Moment>) -> Seq<
        EventView,
    > {
        if is_record(raw) {
            table_events(raw, raw.len() / 1024, file.path)
        } else {
            seq![]
        }
    }

    fn source_name(&self) -> (r: &'static str) {
        "mft"
    }

    fn matches(&self, raw: &[u8]) -> (r: bool) {
        assert(self.recognizes(raw@) == is_record(raw@));
        has_signature(raw)
    }

    fn parse_with(&self, raw: &[u8], file: &SourceFile, clock: &mut Clock) -> (r: Vec<
        TimelineEvent,
    >) {
        let mut events: Vec<TimelineEvent> = Vec::new();
        assert(timeline::views(events@) =~= seq![]);
        proof {
            time::lemma_not_asked(*clock);
        }
        assert(self.presents(raw@, file@) == 0);
        assert(forall|readings: Seq<time::Moment>| #[trigger]
            self.timeline(raw@, file@, readings) == if is_record(raw@) {
                table_events(raw@, raw@.len() / 1024, file@.path)
            } else {
                seq![]
            });
        if !has_signature(raw) {
            return events;
        }
        let total: usize = raw.len() / RECORD_SIZE;
        let mut entry: usize = 0;
        while entry < total
            invariant
                total == raw@.len() / 1024,
                raw@.len() <= usize::MAX,
                entry <= total,
                timeline::views(events@) == table_events(raw@, entry as nat, file@.path),
            decreases total - entry,
        {
            let offset: usize = RECORD_SIZE * entry;
            let record = &raw[offset..offset + RECORD_SIZE];
            if let Some(found) = parse_record(record) {
                build_events(&found, entry as u64, file, &mut events);
            }
            entry = entry + 1;
            assert(timeline::views(events@) =~= table_events(raw@, entry as nat, file@.path));
        }
        events
    }
}

// ---------------------------------------------------------------------
// Laws
// ---------------------------------------------------------------------

/// A file whose creation times agree is not suspect, and which of the two
/// times is the earlier one does not matter.
pub proof fn law_timestomp_compares_distance(info: InfoView, name: NameView)
    ensures
        info.created == name.created ==> !timestomp_suspected(
            RecordView { std_info: Some(info), file_name: Some(name) },
        ),
        timestomp_suspected(RecordView { std_info: Some(info), file_name: Some(name) })
            == timestomp_suspected(
            RecordView {
                std_info: Some(InfoView { created: name.created, ..info }),
                file_name: Some(NameView { created: info.created, ..name }),
            },
        ),
{
}

/// The names in the attributes at `offset`, `left` of them at most.
pub open spec fn names_at(data: Seq<u8>, offset: int, left: nat) -> Seq<NameView>
    decreases left,
{
    match (reader::u32_at(data, offset), reader::u32_at(data, offset + 4)) {
        (Some(kind), Some(len)) => if left == 0 || kind == ATTR_END || len < 8 || offset + len
            > data.len() {
            seq![]
        } else {
            let rest = names_at(data, offset + len, (left - 1) as nat);
            match attribute_content(data, offset) {
                Some(content) => if kind == ATTR_FILE_NAME && file_name(content) is Some {
                    seq![file_name(content)->0] + rest
                } else {
                    rest
                },
                None => rest,
            }
        },
        _ => seq![],
    }
}

/// Where the first Win32 name stands, behind the last one where there is none.
pub open spec fn first_win32(names: Seq<NameView>) -> int
    decreases names.len(),
{
    if names.len() == 0 || is_win32(names[0].namespace) {
        0
    } else {
        1 + first_win32(names.skip(1))
    }
}

/// The name that is preferred among several: the first Win32 one, else the
/// first one.
pub open spec fn preferred(names: Seq<NameView>) -> Option<NameView> {
    if names.len() == 0 {
        None
    } else if first_win32(names) < names.len() {
        Some(names[first_win32(names)])
    } else {
        Some(names[0])
    }
}

proof fn lemma_names(data: Seq<u8>, offset: int, left: nat, record: RecordView)
    ensures
        attributes(data, offset, left, record).file_name == match record.file_name {
            None => preferred(names_at(data, offset, left)),
            Some(kept) => preferred(seq![kept] + names_at(data, offset, left)),
        },
    decreases left,
{
    let names = names_at(data, offset, left);
    if let (Some(kind), Some(len)) = (
        reader::u32_at(data, offset),
        reader::u32_at(data, offset + 4),
    ) {
        if !(left == 0 || kind == ATTR_END || len < 8 || offset + len > data.len()) {
            let next = match attribute_content(data, offset) {
                Some(content) => record.with_attribute(kind, content),
                None => record,
            };
            lemma_names(data, offset + len, (left - 1) as nat, next);
            let rest = names_at(data, offset + len, (left - 1) as nat);
            if names != rest {
                let name = file_name(attribute_content(data, offset)->0)->0;
                assert(names == seq![name] + rest);
                assert((seq![name] + rest).skip(1) =~= rest);
                if let Some(kept) = record.file_name {
                    assert((seq![kept] + names).skip(1) =~= names);
                    assert((seq![kept] + rest).skip(1) =~= rest);
                    lemma_first_win32(rest);
                }
            }
        } else if let Some(kept) = record.file_name {
            lemma_alone(kept);
        }
    } else if let Some(kept) = record.file_name {
        lemma_alone(kept);
    }
}

proof fn lemma_alone(name: NameView)
    ensures
        preferred(seq![name] + seq![]) == Some(name),
{
    let names = seq![name] + seq![];
    assert(names.skip(1) =~= seq![]);
    assert(first_win32(names.skip(1)) == 0);
}

proof fn lemma_first_win32(names: Seq<NameView>)
    ensures
        0 <= first_win32(names) <= names.len(),
        first_win32(names) < names.len() ==> is_win32(names[first_win32(names)].namespace),
        forall|i: int| 0 <= i < first_win32(names) ==> !is_win32((#[trigger] names[i]).namespace),
    decreases names.len(),
{
    if names.len() > 0 && !is_win32(names[0].namespace) {
        lemma_first_win32(names.skip(1));
        assert forall|i: int| 0 <= i < first_win32(names) implies !is_win32(
            (#[trigger] names[i]).namespace,
        ) by {
            if i > 0 {
                assert(names.skip(1)[i - 1] == names[i]);
            }
        }
    }
}

/// Of the names of a record the first Win32 one is kept, the first one where
/// none is.
pub proof fn law_win32_name_is_preferred(record: Seq<u8>)
    requires
        record_of(record) is Some,
    ensures
        ({
            let data = fixed_up(record)->0;
            let names = names_at(data, reader::u16_at(data, 20)->0 as int, MAX_ATTRIBUTES as nat);
            let kept = record_of(record)->0.file_name;
            &&& kept == preferred(names)
            &&& kept is Some == (names.len() > 0)
            &&& (exists|i: int| 0 <= i < names.len() && is_win32((#[trigger] names[i]).namespace))
                ==> is_win32(kept->0.namespace)
        }),
{
    let data = fixed_up(record)->0;
    let start = reader::u16_at(data, 20)->0 as int;
    lemma_names(
        data,
        start,
        MAX_ATTRIBUTES as nat,
        RecordView { std_info: None, file_name: None },
    );
    lemma_first_win32(names_at(data, start, MAX_ATTRIBUTES as nat));
}

proof fn lemma_kind_events(
    record: RecordView,
    info: InfoView,
    entry: int,
    path: Seq<char>,
    kind: int,
)
    requires
        0 <= kind <= 4,
    ensures
        kind_events(record, info, entry, path, kind).len() <= 4 - kind,
        forall|i: int|
            0 <= i < kind_events(record, info, entry, path, kind).len() ==> {
                let event = #[trigger] kind_events(record, info, entry, path, kind)[i];
                &&& event.source == ArtifactSource::Mft
                &&& event.artifact_path == path
                &&& event.target_path == Some(shown_name(record))
            },
    decreases 4 - kind,
{
    if kind < 4 {
        lemma_kind_events(record, info, entry, path, kind + 1);
    }
}

/// A table gives at most four events for each of its entries, all of them of
/// this source and of its path.
pub proof fn law_table_events(raw: Seq<u8>, entries: nat, path: Seq<char>)
    ensures
        table_events(raw, entries, path).len() <= 4 * entries,
        forall|i: int|
            0 <= i < table_events(raw, entries, path).len() ==> {
                let event = #[trigger] table_events(raw, entries, path)[i];
                event.source == ArtifactSource::Mft && event.artifact_path == path
            },
    decreases entries,
{
    if entries > 0 {
        law_table_events(raw, (entries - 1) as nat, path);
        if let Some(record) = record_of(
            raw.subrange(1024 * (entries - 1), 1024 * (entries - 1) + 1024),
        ) {
            if let Some(info) = record.std_info {
                lemma_kind_events(record, info, entries - 1, path, 0);
            }
        }
    }
}

proof fn lemma_same_entries(raw: Seq<u8>, n: int, entries: nat, path: Seq<char>)
    requires
        1024 * entries <= n <= raw.len(),
    ensures
        table_events(raw.take(n), entries, path) == table_events(raw, entries, path),
    decreases entries,
{
    if entries > 0 {
        let at = 1024 * (entries - 1);
        lemma_same_entries(raw, n, (entries - 1) as nat, path);
        assert(raw.take(n).subrange(at, at + 1024) =~= raw.subrange(at, at + 1024));
    }
}

proof fn lemma_fewer_entries(raw: Seq<u8>, few: nat, many: nat, path: Seq<char>)
    requires
        few <= many,
    ensures
        table_events(raw, few, path).is_prefix_of(table_events(raw, many, path)),
    decreases many - few,
{
    if few < many {
        lemma_fewer_entries(raw, few, (many - 1) as nat, path);
        let before = table_events(raw, (many - 1) as nat, path);
        let some = table_events(raw, few, path);
        assert(table_events(raw, many, path).take(some.len() as int) =~= before.take(
            some.len() as int,
        ));
        assert(some =~= table_events(raw, many, path).subrange(0, some.len() as int));
    } else {
        assert(table_events(raw, few, path) =~= table_events(raw, many, path).subrange(
            0,
            table_events(raw, few, path).len() as int,
        ));
    }
}

/// A truncated table gives the first of the events that the whole one gives.
pub proof fn law_truncated_table_gives_first_events(
    raw: Seq<u8>,
    n: int,
    file: FileView,
    readings: Seq<time::Moment>,
)
    requires
        0 <= n <= raw.len(),
    ensures
        MftParser.timeline(raw.take(n), file, readings).is_prefix_of(
            MftParser.timeline(raw, file, readings),
        ),
{
    let few = n as nat / 1024;
    if is_record(raw.take(n)) {
        lemma_same_entries(raw, n, few, file.path);
        lemma_fewer_entries(raw, few, raw.len() / 1024, file.path);
    }
}

/// An event with the number of its entry raised.
pub open spec fn raised(event: EventView, by: int) -> EventView {
    match event.extra["mft_entry"@] {
        json::Json::Number(entry) => event.with_number("mft_entry"@, entry + by),
        _ => event,
    }
}

/// Events with the numbers of their entries raised.
pub open spec fn all_raised(events: Seq<EventView>, by: int) -> Seq<EventView> {
    Seq::new(events.len(), |i: int| raised(events[i], by))
}

proof fn lemma_raised_event(
    record: RecordView,
    entry: int,
    by: int,
    path: Seq<char>,
    kind: int,
    moment: time::Moment,
)
    ensures
        kind_event(record, entry + by, path, kind, moment) == raised(
            kind_event(record, entry, path, kind, moment),
            by,
        ),
{
    reveal_strlit("mft_entry");
    reveal_strlit("parent_mft_ref");
    reveal_strlit("namespace");
    reveal_strlit("timestomp_suspected");
    reveal_strlit("note");
    let low = kind_event(record, entry, path, kind, moment);
    let high = kind_event(record, entry + by, path, kind, moment);
    assert("mft_entry"@[0] == 'm');
    assert("parent_mft_ref"@[0] == 'p');
    assert("namespace"@[0] == 'n');
    assert("timestomp_suspected"@[0] == 't');
    assert("note"@[0] == 'n');
    assert(low.extra["mft_entry"@] == json::Json::Number(entry));
    assert(high.extra =~= raised(low, by).extra);
    assert(high =~= raised(low, by));
}

proof fn lemma_raised_kinds(
    record: RecordView,
    info: InfoView,
    entry: int,
    by: int,
    path: Seq<char>,
    kind: int,
)
    ensures
        kind_events(record, info, entry + by, path, kind) == all_raised(
            kind_events(record, info, entry, path, kind),
            by,
        ),
    decreases 4 - kind,
{
    let low = kind_events(record, info, entry, path, kind);
    let high = kind_events(record, info, entry + by, path, kind);
    if kind < 4 {
        lemma_raised_kinds(record, info, entry, by, path, kind + 1);
        if let Some(moment) = info_moment(info, kind) {
            lemma_raised_event(record, entry, by, path, kind, moment);
        }
    }
    assert(high =~= all_raised(low, by));
}

pub proof fn lemma_tables_append(a: Seq<u8>, b: Seq<u8>, n: nat, path: Seq<char>)
    requires
        a.len() % 1024 == 0,
        1024 * n <= b.len(),
    ensures
        table_events(a + b, a.len() / 1024 + n, path) == table_events(
            a,
            a.len() / 1024,
            path,
        ) + all_raised(table_events(b, n, path), (a.len() / 1024) as int),
    decreases n,
{
    let first = a.len() / 1024;
    if n == 0 {
        lemma_same_entries(a + b, a.len() as int, first, path);
        assert((a + b).take(a.len() as int) =~= a);
        assert(all_raised(table_events(b, 0, path), first as int) =~= seq![]);
        assert(table_events(a, first, path) + seq![] =~= table_events(a, first, path));
    } else {
        lemma_tables_append(a, b, (n - 1) as nat, path);
        let at = 1024 * (n - 1);
        let low = entry_events(b, n - 1, path);
        let high = entry_events(a + b, first + n - 1, path);
        assert((a + b).subrange(1024 * (first + n - 1), 1024 * (first + n - 1) + 1024)
            =~= b.subrange(at, at + 1024));
        if let Some(record) = record_of(b.subrange(at, at + 1024)) {
            if let Some(info) = record.std_info {
                lemma_raised_kinds(record, info, n - 1, first as int, path, 0);
            }
        }
        assert(high =~= all_raised(low, first as int));
        assert(all_raised(table_events(b, n, path), first as int) =~= all_raised(
            table_events(b, (n - 1) as nat, path),
            first as int,
        ) + high);
        assert(table_events(a + b, first + n, path) == table_events(
            a + b,
            (first + n - 1) as nat,
            path,
        ) + high);
        assert(table_events(a + b, first + n, path) =~= table_events(a, first, path) + all_raised(
            table_events(b, n, path),
            first as int,
        ));
    }
}

/// The events of two tables one behind the other are those of the first one,
/// and those of the second one with the numbers of their entries raised by the
/// number of entries in the first.
pub proof fn law_tables_append(
    a: Seq<u8>,
    b: Seq<u8>,
    file: FileView,
    readings: Seq<time::Moment>,
)
    requires
        a.len() % 1024 == 0,
        is_record(a),
        is_record(b),
    ensures
        MftParser.timeline(a + b, file, readings) == MftParser.timeline(a, file, readings)
            + all_raised(MftParser.timeline(b, file, readings), (a.len() / 1024) as int),
{
    let n = b.len() / 1024;
    lemma_tables_append(a, b, n, file.path);
    assert((a + b).len() / 1024 == a.len() / 1024 + n);
    assert(is_record(a + b));
}

} // verus!
