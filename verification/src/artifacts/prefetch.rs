//! Windows prefetch files (.pf), in the SCCA format.
//!
//! Versions 17 (XP, 2003) and 23 (Vista, 7) are stored as they are, with a
//! version number and then the signature "SCCA". Windows 8 (26), 10 (30) and
//! 11 (31) wrap the same structure in Xpress Huffman compression ("MAM\x04"),
//! see [`super::xpress`].
//!
//! Run times and the list of referenced files are evidence of execution. Two
//! indicators are derived: whether the run count and the run times agree, and
//! whether the hash in the file's name is the one in the header. Windows
//! makes both hashes of one path: where they differ, the file was renamed,
//! copied or planted.
//!
//! The layout differs between versions in the number of run times and in what
//! that shifts. Version 30 has two variants of different size: the file's own
//! `file_metrics_array_offset` tells them apart.

use vstd::prelude::*;

use super::reader;
use super::reader::Reader;
use super::xpress;
use super::{ArtifactParser, FileView, SourceFile};
use crate::text;
use crate::timeline;
use crate::timeline::time;
use crate::timeline::time::{Clock, Timestamp};
use crate::timeline::{ArtifactSource, EventView, TimelineEvent};

verus! {

pub const HEADER_SIZE: usize = 84;

pub const EXECUTABLE_NAME_OFFSET: usize = 16;

pub const EXECUTABLE_NAME_MAX_CHARS: usize = 30;

pub const PREFETCH_HASH_OFFSET: usize = 76;

pub const FLAGS_OFFSET: usize = 80;

pub const IS_BOOT_PREFETCH: u32 = 0x01;

// These fields stand at the same offset in every version.
pub const METRICS_ARRAY_OFFSET_FIELD: usize = 84;

pub const FILENAME_STRINGS_OFFSET_FIELD: usize = 100;

pub const FILENAME_STRINGS_SIZE_FIELD: usize = 104;

pub const VOLUMES_OFFSET_FIELD: usize = 108;

pub const VOLUMES_COUNT_FIELD: usize = 112;

pub const MAX_LAST_RUN_TIMES: usize = 8;

pub const MAX_FILENAME_STRINGS: usize = 4096;

pub const MAX_STRING_CHARS: usize = 1024;

// ---------------------------------------------------------------------
// Signatures
// ---------------------------------------------------------------------

/// Whether bytes start as a compressed file does ("MAM\x04" and a size).
pub open spec fn is_mam(raw: Seq<u8>) -> bool {
    raw.len() >= 8 && raw[0] == 0x4D && raw[1] == 0x41 && raw[2] == 0x4D && raw[3] == 0x04
}

/// Whether bytes start as an SCCA structure does (a version and "SCCA").
pub open spec fn is_scca(raw: Seq<u8>) -> bool {
    raw.len() >= 8 && raw[4] == 0x53 && raw[5] == 0x43 && raw[6] == 0x43 && raw[7] == 0x41
}

fn starts_mam(raw: &[u8]) -> (r: bool)
    ensures
        r == is_mam(raw@),
{
    raw.len() >= 8 && raw[0] == 0x4D && raw[1] == 0x41 && raw[2] == 0x4D && raw[3] == 0x04
}

fn starts_scca(raw: &[u8]) -> (r: bool)
    ensures
        r == is_scca(raw@),
{
    raw.len() >= 8 && raw[4] == 0x53 && raw[5] == 0x43 && raw[6] == 0x43 && raw[7] == 0x41
}

/// The SCCA structure of a file, `None` where it cannot be decompressed.
pub open spec fn scca_of(raw: Seq<u8>) -> Option<Seq<u8>> {
    if is_mam(raw) {
        xpress::decompressed(raw.skip(8), reader::le32(raw, 4) as nat)
    } else {
        Some(raw)
    }
}

fn decompress_if_needed(raw: &[u8]) -> (r: Option<Vec<u8>>)
    ensures
        r is Some == scca_of(raw@) is Some,
        r matches Some(scca) ==> scca@ == scca_of(raw@)->0,
{
    if starts_mam(raw) {
        let size: u32 = match Reader::new(raw).u32(4) {
            Some(size) => size,
            None => {
                return None;
            },
        };
        let compressed = &raw[8..raw.len()];
        assert(compressed@ =~= raw@.skip(8));
        xpress::decompress(compressed, size as usize)
    } else {
        Some(vstd::slice::slice_to_vec(raw))
    }
}

// ---------------------------------------------------------------------
// Versions
// ---------------------------------------------------------------------

/// Where a version keeps the run times and the run count.
#[derive(Debug, Clone, Copy)]
pub struct VersionLayout {
    pub last_run_time_offset: usize,
    pub last_run_time_count: usize,
    pub run_count_offset: usize,
}

/// The layout of a version, whose file information has a size.
pub open spec fn layout_of(version: u32, file_info_size: int) -> Option<VersionLayout> {
    if version == 17 {
        Some(
            VersionLayout {
                last_run_time_offset: 120,
                last_run_time_count: 1,
                run_count_offset: 144,
            },
        )
    } else if version == 23 {
        Some(
            VersionLayout {
                last_run_time_offset: 128,
                last_run_time_count: 1,
                run_count_offset: 152,
            },
        )
    } else if version == 26 || (version == 30 && file_info_size == 220) {
        Some(
            VersionLayout {
                last_run_time_offset: 128,
                last_run_time_count: 8,
                run_count_offset: 208,
            },
        )
    } else if version == 31 || (version == 30 && file_info_size == 212) {
        Some(
            VersionLayout {
                last_run_time_offset: 128,
                last_run_time_count: 8,
                run_count_offset: 200,
            },
        )
    } else {
        None
    }
}

fn layout_for_version(version: u32, file_info_size: usize) -> (r: Option<VersionLayout>)
    ensures
        r == layout_of(version, file_info_size as int),
{
    match version {
        17 => Some(
            VersionLayout {
                last_run_time_offset: HEADER_SIZE + 36,
                last_run_time_count: 1,
                run_count_offset: HEADER_SIZE + 60,
            },
        ),
        23 => Some(
            VersionLayout {
                last_run_time_offset: HEADER_SIZE + 44,
                last_run_time_count: 1,
                run_count_offset: HEADER_SIZE + 68,
            },
        ),
        26 => Some(
            VersionLayout {
                last_run_time_offset: HEADER_SIZE + 44,
                last_run_time_count: MAX_LAST_RUN_TIMES,
                run_count_offset: HEADER_SIZE + 124,
            },
        ),
        30 => match file_info_size {
            220 => Some(
                VersionLayout {
                    last_run_time_offset: HEADER_SIZE + 44,
                    last_run_time_count: MAX_LAST_RUN_TIMES,
                    run_count_offset: HEADER_SIZE + 124,
                },
            ),
            212 => Some(
                VersionLayout {
                    last_run_time_offset: HEADER_SIZE + 44,
                    last_run_time_count: MAX_LAST_RUN_TIMES,
                    run_count_offset: HEADER_SIZE + 116,
                },
            ),
            _ => None,
        },
        31 => Some(
            VersionLayout {
                last_run_time_offset: HEADER_SIZE + 44,
                last_run_time_count: MAX_LAST_RUN_TIMES,
                run_count_offset: HEADER_SIZE + 116,
            },
        ),
        _ => None,
    }
}

// ---------------------------------------------------------------------
// Strings
// ---------------------------------------------------------------------

/// The units in front of the first zero, all of them where there is none.
pub open spec fn before_zero(units: Seq<u16>) -> Seq<u16>
    decreases units.len(),
{
    if units.len() == 0 || units[0] == 0 {
        seq![]
    } else {
        seq![units[0]] + before_zero(units.skip(1))
    }
}

pub proof fn lemma_before_zero(units: Seq<u16>, n: int)
    requires
        0 <= n <= units.len(),
        forall|i: int| 0 <= i < n ==> units[i] != 0,
        n < units.len() ==> units[n] == 0,
    ensures
        before_zero(units) == units.take(n),
    decreases n,
{
    if n == 0 {
        assert(units.take(0) =~= seq![]);
    } else {
        lemma_before_zero(units.skip(1), n - 1);
        assert(seq![units[0]] + units.skip(1).take(n - 1) =~= units.take(n));
    }
}

/// The zero-terminated text at `offset`, in units of two bytes of which there
/// are `max_chars`. What stands behind the first zero can be remnants, and is
/// no part of it. `None` where the text is empty or cut off.
pub open spec fn utf16_cstr_at(data: Seq<u8>, offset: int, max_chars: int) -> Option<Seq<char>> {
    let chars = if max_chars <= MAX_STRING_CHARS {
        max_chars
    } else {
        MAX_STRING_CHARS as int
    };
    match reader::bytes_at(data, offset, 2 * chars) {
        Some(bytes) => {
            let units = before_zero(text::units_of(bytes));
            if units.len() == 0 {
                None
            } else {
                Some(text::utf16_lossy(units))
            }
        },
        None => None,
    }
}

fn zero_position(units: &Vec<u16>) -> (n: usize)
    ensures
        n <= units@.len(),
        before_zero(units@) == units@.take(n as int),
{
    let mut n: usize = 0;
    while n < units.len() && units[n] != 0
        invariant
            n <= units@.len(),
            forall|i: int| 0 <= i < n ==> units@[i] != 0,
        decreases units@.len() - n,
    {
        n = n + 1;
    }
    proof {
        lemma_before_zero(units@, n as int);
    }
    n
}

fn read_utf16le_cstr(r: &Reader, offset: usize, max_chars: usize) -> (t: Option<String>)
    ensures
        timeline::text_of(t) == utf16_cstr_at(r@, offset as int, max_chars as int),
{
    let chars: usize = if max_chars <= MAX_STRING_CHARS {
        max_chars
    } else {
        MAX_STRING_CHARS
    };
    let bytes = match r.slice(offset, 2 * chars) {
        Some(bytes) => bytes,
        None => {
            return None;
        },
    };
    let units = text::utf16_units(bytes);
    let end = zero_position(&units);
    if end == 0 {
        return None;
    }
    let kept = &units.as_slice()[0..end];
    assert(kept@ =~= units@.take(end as int));
    Some(text::utf16_text(kept))
}

/// The texts of back-to-back zero-terminated strings, `left` of them at most.
/// Empty ones do not count, nor does one without its zero.
pub open spec fn strings_of(units: Seq<u16>, left: nat) -> Seq<Seq<char>>
    decreases units.len(),
{
    let first = before_zero(units);
    if left == 0 || first.len() >= units.len() {
        seq![]
    } else if first.len() == 0 {
        strings_of(units.skip(1), left)
    } else {
        seq![text::utf16_lossy(first)] + strings_of(
            units.skip(first.len() as int + 1),
            (left - 1) as nat,
        )
    }
}

/// The files that a prefetch file refers to.
pub open spec fn filename_strings(data: Seq<u8>) -> Seq<Seq<char>> {
    match (
        reader::u32_at(data, FILENAME_STRINGS_OFFSET_FIELD as int),
        reader::u32_at(data, FILENAME_STRINGS_SIZE_FIELD as int),
    ) {
        (Some(offset), Some(size)) => match reader::bytes_at(data, offset as int, size as int) {
            Some(section) => strings_of(text::units_of(section), MAX_FILENAME_STRINGS as nat),
            None => seq![],
        },
        _ => seq![],
    }
}

fn split_strings(units: &Vec<u16>) -> (out: Vec<String>)
    ensures
        text::texts(out@) == strings_of(units@, MAX_FILENAME_STRINGS as nat),
{
    let mut out: Vec<String> = Vec::new();
    let mut start: usize = 0;
    let mut i: usize = 0;
    let ghost whole = strings_of(units@, MAX_FILENAME_STRINGS as nat);
    assert(text::texts(out@) + strings_of(units@.skip(0), MAX_FILENAME_STRINGS as nat) =~= whole) by {
        assert(units@.skip(0) =~= units@);
    }
    while i < units.len()
        invariant_except_break
            out@.len() < MAX_FILENAME_STRINGS,
            start <= i <= units@.len(),
        invariant
            forall|k: int| start <= k < i ==> units@[k] != 0,
            out@.len() <= MAX_FILENAME_STRINGS,
            text::texts(out@) + strings_of(
                units@.skip(start as int),
                (MAX_FILENAME_STRINGS - out@.len()) as nat,
            ) == whole,
        ensures
            start <= units@.len(),
            out@.len() == MAX_FILENAME_STRINGS || forall|k: int|
                start <= k < units@.len() ==> units@[k] != 0,
        decreases units@.len() - i,
    {
        if units[i] == 0 {
            let ghost here = units@.skip(start as int);
            let ghost left = (MAX_FILENAME_STRINGS - out@.len()) as nat;
            let ghost before = text::texts(out@);
            proof {
                lemma_before_zero(here, i - start);
            }
            if i > start {
                let piece = &units.as_slice()[start..i];
                assert(piece@ =~= here.take(i - start));
                let s = text::utf16_text(piece);
                let ghost shown = s@;
                let ghost rest = strings_of(here.skip(i - start + 1), (left - 1) as nat);
                out.push(s);
                assert(text::texts(out@) =~= before.push(shown));
                assert(before.push(shown) + rest =~= before + (seq![shown] + rest));
            }
            assert(here.skip(i - start + 1) =~= units@.skip(i + 1));
            start = i + 1;
            if out.len() >= MAX_FILENAME_STRINGS {
                break ;
            }
        }
        i = i + 1;
    }
    proof {
        let tail = units@.skip(start as int);
        if out@.len() < MAX_FILENAME_STRINGS {
            lemma_before_zero(tail, tail.len() as int);
        }
        assert(text::texts(out@) + seq![] =~= text::texts(out@));
    }
    out
}

fn parse_filename_strings(r: &Reader) -> (out: Vec<String>)
    ensures
        text::texts(out@) == filename_strings(r@),
{
    match (r.u32(FILENAME_STRINGS_OFFSET_FIELD), r.u32(FILENAME_STRINGS_SIZE_FIELD)) {
        (Some(offset), Some(size)) => {
            if let Some(section) = r.slice(offset as usize, size as usize) {
                let units = text::utf16_units(section);
                return split_strings(&units);
            }
        },
        _ => {},
    }
    let none: Vec<String> = Vec::new();
    assert(text::texts(none@) =~= seq![]);
    none
}

// ---------------------------------------------------------------------
// Fields
// ---------------------------------------------------------------------

/// What a prefetch file says of a volume.
pub struct VolumeView {
    pub device_path: Option<Seq<char>>,
    pub created: Option<time::Moment>,
    pub serial_number: Option<u32>,
}

/// What a prefetch file says.
#[verifier::ext_equal]
pub struct PrefetchView {
    pub version: u32,
    pub executable_name: Option<Seq<char>>,
    pub prefetch_hash: Option<u32>,
    pub is_boot_prefetch: bool,
    pub run_count: u32,
    pub last_run_times: Seq<time::Moment>,
    pub volume: Option<VolumeView>,
    pub referenced_files: Seq<Seq<char>>,
}

struct VolumeInfo {
    device_path: Option<String>,
    created: Option<Timestamp>,
    serial_number: Option<u32>,
}

impl View for VolumeInfo {
    type V = VolumeView;

    closed spec fn view(&self) -> VolumeView {
        VolumeView {
            device_path: timeline::text_of(self.device_path),
            created: time::moment_of(self.created),
            serial_number: self.serial_number,
        }
    }
}

struct PrefetchFields {
    version: u32,
    executable_name: Option<String>,
    prefetch_hash: Option<u32>,
    is_boot_prefetch: bool,
    run_count: u32,
    last_run_times: Vec<Timestamp>,
    volume: Option<VolumeInfo>,
    referenced_files: Vec<String>,
}

impl View for PrefetchFields {
    type V = PrefetchView;

    closed spec fn view(&self) -> PrefetchView {
        PrefetchView {
            version: self.version,
            executable_name: timeline::text_of(self.executable_name),
            prefetch_hash: self.prefetch_hash,
            is_boot_prefetch: self.is_boot_prefetch,
            run_count: self.run_count,
            last_run_times: time::moments(self.last_run_times@),
            volume: match self.volume {
                Some(volume) => Some(volume@),
                None => None,
            },
            referenced_files: text::texts(self.referenced_files@),
        }
    }
}

/// The 32-bit number at `offset`, 0 where it is cut off.
pub open spec fn number_at(data: Seq<u8>, offset: int) -> u32 {
    match reader::u32_at(data, offset) {
        Some(n) => n,
        None => 0,
    }
}

/// The first volume at `offset`, where there is any.
pub open spec fn volume_at(data: Seq<u8>, offset: int, count: u32) -> Option<VolumeView> {
    match (reader::u32_at(data, offset), reader::u32_at(data, offset + 4)) {
        (Some(path), Some(chars)) => if count == 0 {
            None
        } else {
            Some(
                VolumeView {
                    device_path: utf16_cstr_at(data, offset + path, chars as int),
                    created: super::moment_at(data, offset + 8),
                    serial_number: reader::u32_at(data, offset + 16),
                },
            )
        },
        _ => None,
    }
}

/// The `n` run times at `offset`, without those that are not set.
pub open spec fn run_times_at(data: Seq<u8>, offset: int, n: nat) -> Seq<time::Moment>
    decreases n,
{
    if n == 0 {
        seq![]
    } else {
        let before = run_times_at(data, offset, (n - 1) as nat);
        match super::moment_at(data, offset + 8 * (n - 1)) {
            Some(moment) => before.push(moment),
            None => before,
        }
    }
}

/// What an SCCA structure says, `None` where it is none, is cut off or is of
/// an unknown version.
pub open spec fn fields_of(data: Seq<u8>) -> Option<PrefetchView> {
    match (reader::u32_at(data, 0), reader::u32_at(data, METRICS_ARRAY_OFFSET_FIELD as int)) {
        (Some(version), Some(metrics)) => match layout_of(version, metrics - HEADER_SIZE) {
            Some(layout) => if is_scca(data) && metrics >= HEADER_SIZE {
                Some(
                    PrefetchView {
                        version,
                        executable_name: utf16_cstr_at(
                            data,
                            EXECUTABLE_NAME_OFFSET as int,
                            EXECUTABLE_NAME_MAX_CHARS as int,
                        ),
                        prefetch_hash: reader::u32_at(data, PREFETCH_HASH_OFFSET as int),
                        is_boot_prefetch: number_at(data, FLAGS_OFFSET as int) & IS_BOOT_PREFETCH
                            != 0,
                        run_count: number_at(data, layout.run_count_offset as int),
                        last_run_times: run_times_at(
                            data,
                            layout.last_run_time_offset as int,
                            layout.last_run_time_count as nat,
                        ),
                        volume: volume_at(
                            data,
                            number_at(data, VOLUMES_OFFSET_FIELD as int) as int,
                            number_at(data, VOLUMES_COUNT_FIELD as int),
                        ),
                        referenced_files: filename_strings(data),
                    },
                )
            } else {
                None
            },
            None => None,
        },
        _ => None,
    }
}

fn read_number(r: &Reader, offset: usize) -> (n: u32)
    ensures
        n == number_at(r@, offset as int),
{
    match r.u32(offset) {
        Some(n) => n,
        None => 0,
    }
}

fn parse_volume(r: &Reader, volumes_offset: usize, volumes_count: u32) -> (v: Option<VolumeInfo>)
    ensures
        v is Some == volume_at(r@, volumes_offset as int, volumes_count) is Some,
        v matches Some(v) ==> v@ == volume_at(r@, volumes_offset as int, volumes_count)->0,
{
    if volumes_count == 0 {
        return None;
    }
    let (path, chars) = match (r.u32(volumes_offset), r.u32(volumes_offset.saturating_add(4))) {
        (Some(path), Some(chars)) => (path, chars),
        _ => {
            return None;
        },
    };
    let created = super::read_moment(r, volumes_offset.saturating_add(8));
    let serial_number = r.u32(volumes_offset.saturating_add(16));
    let device_path = match volumes_offset.checked_add(path as usize) {
        Some(at) => read_utf16le_cstr(r, at, chars as usize),
        None => None,
    };
    Some(VolumeInfo { device_path, created, serial_number })
}

fn parse_last_run_times(r: &Reader, layout: &VersionLayout) -> (out: Vec<Timestamp>)
    requires
        layout.last_run_time_offset <= 1024,
        layout.last_run_time_count <= MAX_LAST_RUN_TIMES,
    ensures
        time::moments(out@) == run_times_at(
            r@,
            layout.last_run_time_offset as int,
            layout.last_run_time_count as nat,
        ),
{
    let mut out: Vec<Timestamp> = Vec::new();
    assert(time::moments(out@) =~= seq![]);
    let mut i: usize = 0;
    while i < layout.last_run_time_count
        invariant
            layout.last_run_time_offset <= 1024,
            i <= layout.last_run_time_count <= 8,
            time::moments(out@) == run_times_at(r@, layout.last_run_time_offset as int, i as nat),
        decreases layout.last_run_time_count - i,
    {
        let offset: usize = layout.last_run_time_offset + 8 * i;
        let ghost before = time::moments(out@);
        if let Some(timestamp) = super::read_moment(r, offset) {
            out.push(timestamp);
            assert(time::moments(out@) =~= before.push(timestamp@));
        }
        i = i + 1;
    }
    out
}

fn parse_fields(scca: &[u8]) -> (f: Option<PrefetchFields>)
    ensures
        f is Some == fields_of(scca@) is Some,
        f matches Some(f) ==> f@ == fields_of(scca@)->0,
{
    let r = Reader::new(scca);
    let (version, metrics) = match (r.u32(0), r.u32(METRICS_ARRAY_OFFSET_FIELD)) {
        (Some(version), Some(metrics)) => (version, metrics as usize),
        _ => {
            return None;
        },
    };
    if !starts_scca(scca) || metrics < HEADER_SIZE {
        return None;
    }
    let layout = match layout_for_version(version, metrics - HEADER_SIZE) {
        Some(layout) => layout,
        None => {
            return None;
        },
    };
    let executable_name = read_utf16le_cstr(&r, EXECUTABLE_NAME_OFFSET, EXECUTABLE_NAME_MAX_CHARS);
    let prefetch_hash = r.u32(PREFETCH_HASH_OFFSET);
    let is_boot_prefetch = read_number(&r, FLAGS_OFFSET) & IS_BOOT_PREFETCH != 0;
    let run_count = read_number(&r, layout.run_count_offset);
    let last_run_times = parse_last_run_times(&r, &layout);
    let volumes_offset = read_number(&r, VOLUMES_OFFSET_FIELD) as usize;
    let volumes_count = read_number(&r, VOLUMES_COUNT_FIELD);
    let volume = parse_volume(&r, volumes_offset, volumes_count);
    let referenced_files = parse_filename_strings(&r);
    Some(
        PrefetchFields {
            version,
            executable_name,
            prefetch_hash,
            is_boot_prefetch,
            run_count,
            last_run_times,
            volume,
            referenced_files,
        },
    )
}

// ---------------------------------------------------------------------
// Indicators
// ---------------------------------------------------------------------

/// The hash in the name of a prefetch file (`NAME-HHHHHHHH`), where it has one.
pub open spec fn declared_hash(stem: Option<Seq<char>>) -> Option<u32> {
    match stem {
        Some(stem) => if stem.len() >= 9 && stem[stem.len() - 9] == '-' {
            text::number(stem.skip(stem.len() - 8), 16)
        } else {
            None
        },
        None => None,
    }
}

fn filename_declared_hash(stem: &Option<String>) -> (r: Option<u32>)
    ensures
        r == declared_hash(timeline::text_of(*stem)),
{
    let chars = match stem {
        Some(stem) => text::chars_of(stem.as_str()),
        None => {
            return None;
        },
    };
    let n: usize = chars.len();
    if n < 9 || chars[n - 9] != '-' {
        return None;
    }
    let digits = vstd::slice::slice_to_vec(&chars.as_slice()[n - 8..n]);
    assert(digits@ =~= chars@.skip(n - 8));
    text::parse_number(&digits, 16)
}

/// The name that Windows gives to a prefetch file, the executable's and its
/// hash, has that hash, in capital or in small letters.
pub proof fn law_declared_hash_reads_back(name: Seq<char>, hash: u32, upper: bool)
    ensures
        declared_hash(Some(name.push('-') + text::hex(hash as nat, 8, upper))) == Some(hash),
{
    let digits = text::hex(hash as nat, 8, upper);
    let stem = name.push('-') + digits;
    assert(text::hex_values(8) == 0x1_0000_0000) by {
        reveal_with_fuel(text::hex_values, 9);
    }
    text::lemma_hex_reads_back(hash as nat, 8, upper);
    assert(stem.skip(stem.len() - 8) =~= digits);
}

/// Whether the run count says that the file ran and no run time does, or the
/// other way round.
pub open spec fn run_count_mismatch(fields: PrefetchView) -> bool {
    (fields.run_count > 0) != (fields.last_run_times.len() > 0)
}

/// Whether the hash in the header is not the one in the file's name.
pub open spec fn hash_mismatch(fields: PrefetchView, file: FileView) -> bool {
    match (fields.prefetch_hash, declared_hash(file.stem)) {
        (Some(header), Some(name)) => header != name,
        _ => false,
    }
}

// ---------------------------------------------------------------------
// The events of a file
// ---------------------------------------------------------------------

/// A 32-bit number as `0x` and eight digits.
pub open spec fn hex_text(n: Option<u32>) -> Option<Seq<char>> {
    match n {
        Some(n) => Some("0x"@ + text::hex(n as nat, 8, true)),
        None => None,
    }
}

/// The name of the executable, as its events give it.
pub open spec fn shown_name(fields: PrefetchView) -> Seq<char> {
    match fields.executable_name {
        Some(name) => name,
        None => "(unknown)"@,
    }
}

/// An event with what is known of a volume.
pub open spec fn with_volume(event: EventView, volume: Option<VolumeView>) -> EventView {
    match volume {
        Some(volume) => event.with_text_of(
            "volume_device_path"@,
            volume.device_path,
        ).with_text_of("volume_serial_number"@, hex_text(volume.serial_number)).with_text_of(
            "volume_created"@,
            time::moment_text(volume.created),
        ),
        None => event,
    }
}

/// An event with the indicators of tampering.
pub open spec fn with_indicators(event: EventView, fields: PrefetchView, file: FileView) -> EventView {
    let event = if run_count_mismatch(fields) {
        event.with_flag("run_count_mismatch_suspected"@, true).with_text(
            "run_count_mismatch_note"@,
            "run_count and recorded last-run timestamp count are inconsistent — possible truncated or tampered prefetch file"@,
        )
    } else {
        event
    };
    if hash_mismatch(fields, file) {
        event.with_flag("filename_hash_mismatch"@, true).with_text(
            "filename_hash_mismatch_note"@,
            "prefetch hash embedded in the filename does not match the header's prefetch_hash field — this file was likely renamed, copied from another host, or otherwise planted rather than generated in place"@,
        )
    } else {
        event
    }
}

/// The event of one run.
pub open spec fn run_event(fields: PrefetchView, file: FileView, moment: time::Moment) -> EventView {
    let name = shown_name(fields);
    let event = EventView::new(
        moment,
        ArtifactSource::Prefetch,
        "prefetch_execution"@,
        "Executed: "@ + name + " (run count: "@ + text::decimal(fields.run_count as nat) + ")"@,
        file.path,
    ).with_target(name).with_number("scca_version"@, fields.version as int).with_number(
        "run_count"@,
        fields.run_count as int,
    ).with_number("referenced_file_count"@, fields.referenced_files.len() as int).with_text_of(
        "prefetch_hash"@,
        hex_text(fields.prefetch_hash),
    );
    let event = if fields.is_boot_prefetch {
        event.with_flag("is_boot_prefetch"@, true)
    } else {
        event
    };
    with_indicators(with_volume(event, fields.volume), fields, file)
}

/// The moments of the runs. Where none is recorded, the file itself gives one.
pub open spec fn run_moments(fields: PrefetchView, file: FileView, now: time::Moment) -> Seq<
    time::Moment,
> {
    if fields.last_run_times.len() == 0 {
        seq![file.moment(now)]
    } else {
        fields.last_run_times
    }
}

/// How many of the events of a prefetch file take their moment from the present.
pub open spec fn undated_runs(fields: PrefetchView, file: FileView) -> nat {
    if fields.last_run_times.len() == 0 && file.modified is None {
        1
    } else {
        0
    }
}

/// The events of a prefetch file, one for each run.
pub open spec fn run_events(fields: PrefetchView, file: FileView, now: time::Moment) -> Seq<
    EventView,
> {
    let moments = run_moments(fields, file, now);
    Seq::new(moments.len(), |i: int| run_event(fields, file, moments[i]))
}

fn hex_of(n: Option<u32>) -> (r: Option<String>)
    ensures
        timeline::text_of(r) == hex_text(n),
{
    match n {
        Some(n) => {
            let mut s = "0x".to_string();
            text::push_hex(&mut s, n as u64, 8, true);
            Some(s)
        },
        None => None,
    }
}

fn copy_text(s: &Option<String>) -> (r: Option<String>)
    ensures
        timeline::text_of(r) == timeline::text_of(*s),
{
    match s {
        Some(s) => Some(s.clone()),
        None => None,
    }
}

fn add_volume(event: TimelineEvent, volume: &Option<VolumeInfo>) -> (r: TimelineEvent)
    ensures
        r@ == with_volume(
            event@,
            match *volume {
                Some(v) => Some(v@),
                None => None,
            },
        ),
{
    match volume {
        Some(volume) => event.with_text_of(
            "volume_device_path",
            copy_text(&volume.device_path),
        ).with_text_of("volume_serial_number", hex_of(volume.serial_number)).with_text_of(
            "volume_created",
            Timestamp::text_of(&volume.created),
        ),
        None => event,
    }
}

fn add_indicators(
    event: TimelineEvent,
    fields: &PrefetchFields,
    file: &SourceFile,
) -> (r: TimelineEvent)
    ensures
        r@ == with_indicators(event@, fields@, file@),
{
    let mut event = event;
    let runs: usize = fields.last_run_times.len();
    if (fields.run_count > 0 && runs == 0) || (fields.run_count == 0 && runs > 0) {
        event = event.with_flag("run_count_mismatch_suspected", true).with_text(
            "run_count_mismatch_note",
            "run_count and recorded last-run timestamp count are inconsistent — possible truncated or tampered prefetch file".to_string(),
        );
    }
    let mismatch = match (fields.prefetch_hash, filename_declared_hash(&file.stem)) {
        (Some(header), Some(name)) => header != name,
        _ => false,
    };
    if mismatch {
        event = event.with_flag("filename_hash_mismatch", true).with_text(
            "filename_hash_mismatch_note",
            "prefetch hash embedded in the filename does not match the header's prefetch_hash field — this file was likely renamed, copied from another host, or otherwise planted rather than generated in place".to_string(),
        );
    }
    event
}

fn build_event(fields: &PrefetchFields, file: &SourceFile, timestamp: Timestamp) -> (r:
    TimelineEvent)
    ensures
        r@ == run_event(fields@, file@, timestamp@),
{
    let name = match &fields.executable_name {
        Some(name) => name.clone(),
        None => "(unknown)".to_string(),
    };
    let mut description = "Executed: ".to_string();
    description.append(name.as_str());
    description.append(" (run count: ");
    text::push_decimal(&mut description, fields.run_count as u64);
    description.append(")");
    let mut event = TimelineEvent::new(
        timestamp,
        ArtifactSource::Prefetch,
        "prefetch_execution",
        description,
        file.path.clone(),
    ).with_target(name).with_number("scca_version", fields.version as u64).with_number(
        "run_count",
        fields.run_count as u64,
    ).with_number("referenced_file_count", fields.referenced_files.len() as u64).with_text_of(
        "prefetch_hash",
        hex_of(fields.prefetch_hash),
    );
    if fields.is_boot_prefetch {
        event = event.with_flag("is_boot_prefetch", true);
    }
    add_indicators(add_volume(event, &fields.volume), fields, file)
}

fn build_events(fields: &PrefetchFields, file: &SourceFile, clock: &mut Clock) -> (out: Vec<
    TimelineEvent,
>)
    ensures
        final(clock).asked(old(clock), undated_runs(fields@, file@)),
        timeline::views(out@) == run_events(fields@, file@, final(clock).since(old(clock))[0]),
{
    let mut out: Vec<TimelineEvent> = Vec::new();
    if fields.last_run_times.len() == 0 {
        let timestamp = file.moment(clock);
        out.push(build_event(fields, file, timestamp));
        proof {
            let now = clock.since(old(clock))[0];
            assert(timestamp@ == file@.moment(now));
            assert(timeline::views(out@) =~= run_events(fields@, file@, now));
        }
        return out;
    }
    for i in 0..fields.last_run_times.len()
        invariant
            *clock == *old(clock),
            out@.len() == i,
            forall|k: int|
                0 <= k < i ==> (#[trigger] out@[k])@ == run_event(
                    fields@,
                    file@,
                    fields.last_run_times@[k]@,
                ),
    {
        out.push(build_event(fields, file, fields.last_run_times[i]));
    }
    proof {
        time::lemma_not_asked(*clock);
        assert(timeline::views(out@) =~= run_events(fields@, file@, clock.since(old(clock))[0]));
    }
    out
}

/// What a prefetch file says, `None` where it cannot be read.
pub open spec fn prefetch_of(raw: Seq<u8>) -> Option<PrefetchView> {
    match scca_of(raw) {
        Some(scca) => fields_of(scca),
        None => None,
    }
}

/// The events of bytes that may be a prefetch file, where `now` is the present.
pub open spec fn prefetch_events(raw: Seq<u8>, file: FileView, now: time::Moment) -> Seq<EventView> {
    match prefetch_of(raw) {
        Some(fields) => if is_mam(raw) || is_scca(raw) {
            run_events(fields, file, now)
        } else {
            seq![]
        },
        None => seq![],
    }
}

/// How many of these events take their moment from the present.
pub open spec fn undated_events(raw: Seq<u8>, file: FileView) -> nat {
    match prefetch_of(raw) {
        Some(fields) => if is_mam(raw) || is_scca(raw) {
            undated_runs(fields, file)
        } else {
            0
        },
        None => 0,
    }
}

/// The parser of prefetch files.
pub struct PrefetchParser;

impl ArtifactParser for PrefetchParser {
    open spec fn source(&self) -> ArtifactSource {
        ArtifactSource::Prefetch
    }

    open spec fn recognizes(&self, raw: Seq<u8>) -> bool {
        is_mam(raw) || is_scca(raw)
    }

    open spec fn presents(&self, raw: Seq<u8>, file: FileView) -> nat {
        undated_events(raw, file)
    }

    open spec fn timeline(&self, raw: Seq<u8>, file: FileView, readings: Seq<time::Moment>) -> Seq<
        EventView,
    > {
        prefetch_events(raw, file, readings[0])
    }

    fn source_name(&self) -> (r: &'static str) {
        "prefetch"
    }

    fn matches(&self, raw: &[u8]) -> (r: bool) {
        assert(self.recognizes(raw@) == (is_mam(raw@) || is_scca(raw@)));
        starts_mam(raw) || starts_scca(raw)
    }

    fn parse_with(&self, raw: &[u8], file: &SourceFile, clock: &mut Clock) -> (r: Vec<
        TimelineEvent,
    >) {
        assert(forall|readings: Seq<time::Moment>| #[trigger]
            self.timeline(raw@, file@, readings) == prefetch_events(raw@, file@, readings[0]));
        assert(self.presents(raw@, file@) == undated_events(raw@, file@));
        proof {
            time::lemma_not_asked(*clock);
        }
        if starts_mam(raw) || starts_scca(raw) {
            if let Some(scca) = decompress_if_needed(raw) {
                if let Some(fields) = parse_fields(scca.as_slice()) {
                    return build_events(&fields, file, clock);
                }
            }
        }
        let none: Vec<TimelineEvent> = Vec::new();
        assert(timeline::views(none@) =~= seq![]);
        none
    }
}

// ---------------------------------------------------------------------
// Laws
// ---------------------------------------------------------------------

/// A file that has the name which Windows gave it is not flagged for its name.
pub proof fn law_genuine_name_is_not_flagged(
    fields: PrefetchView,
    file: FileView,
    name: Seq<char>,
    hash: u32,
    upper: bool,
)
    requires
        fields.prefetch_hash == Some(hash),
        file.stem == Some(name.push('-') + text::hex(hash as nat, 8, upper)),
    ensures
        !hash_mismatch(fields, file),
{
    law_declared_hash_reads_back(name, hash, upper);
}

/// A file with another file's hash in its name is flagged.
pub proof fn law_foreign_name_is_flagged(
    fields: PrefetchView,
    file: FileView,
    name: Seq<char>,
    hash: u32,
    upper: bool,
)
    requires
        fields.prefetch_hash is Some,
        fields.prefetch_hash != Some(hash),
        file.stem == Some(name.push('-') + text::hex(hash as nat, 8, upper)),
    ensures
        hash_mismatch(fields, file),
{
    law_declared_hash_reads_back(name, hash, upper);
}

proof fn lemma_run_times(data: Seq<u8>, offset: int, n: nat)
    ensures
        run_times_at(data, offset, n).len() <= n,
    decreases n,
{
    if n > 0 {
        lemma_run_times(data, offset, (n - 1) as nat);
    }
}

/// A prefetch file that can be read gives one event for each run time, or one
/// where it has none: from one to eight. They are of this source, of the
/// file's path and of the executable.
pub proof fn law_prefetch_events(raw: Seq<u8>, file: FileView, now: time::Moment)
    ensures
        prefetch_events(raw, file, now).len() <= 8,
        (is_mam(raw) || is_scca(raw)) && prefetch_of(raw) is Some ==> prefetch_events(
            raw,
            file,
            now,
        ).len() >= 1,
        forall|i: int|
            0 <= i < prefetch_events(raw, file, now).len() ==> {
                let event = #[trigger] prefetch_events(raw, file, now)[i];
                &&& event.source == ArtifactSource::Prefetch
                &&& event.artifact_path == file.path
                &&& event.target_path == Some(shown_name(prefetch_of(raw)->0))
            },
{
    if let Some(scca) = scca_of(raw) {
        if let Some(version) = reader::u32_at(scca, 0) {
            if let Some(metrics) = reader::u32_at(scca, METRICS_ARRAY_OFFSET_FIELD as int) {
                if let Some(layout) = layout_of(version, metrics - HEADER_SIZE) {
                    lemma_run_times(
                        scca,
                        layout.last_run_time_offset as int,
                        layout.last_run_time_count as nat,
                    );
                }
            }
        }
    }
}

/// A compressed file gives the events of the structure that it holds.
pub proof fn law_compression_is_transparent(
    raw: Seq<u8>,
    scca: Seq<u8>,
    file: FileView,
    readings: Seq<time::Moment>,
)
    requires
        is_mam(raw),
        scca_of(raw) == Some(scca),
        !is_mam(scca),
    ensures
        PrefetchParser.timeline(raw, file, readings) == PrefetchParser.timeline(
            scca,
            file,
            readings,
        ),
{
}

} // verus!
