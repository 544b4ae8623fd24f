//! Windows shortcuts (.lnk), as MS-SHLLINK lays them out.
//!
//! A shortcut gives one event. The whole structure is walked (LinkInfo,
//! StringData, TrackerDataBlock): the target path and the provenance that the
//! tracker block leaks are what a timeline needs.
//!
//! Reference: https://learn.microsoft.com/en-us/openspecs/windows_protocols/ms-shllink/

use vstd::prelude::*;

use super::reader;
use super::reader::Reader;
use super::{ArtifactParser, FileView, SourceFile};
use crate::text;
use crate::timeline;
use crate::timeline::time;
use crate::timeline::time::{Clock, Timestamp};
use crate::timeline::{ArtifactSource, EventView, TimelineEvent};

verus! {

/// HeaderSize (0x4C) and LinkCLSID {00021401-0000-0000-C000-000000000046}.
pub const HEADER_MAGIC: [u8; 20] = [
    0x4c, 0x00, 0x00, 0x00, 0x01, 0x14, 0x02, 0x00, 0x00, 0x00, 0x00, 0x00, 0xc0, 0x00, 0x00, 0x00,
    0x00, 0x00, 0x00, 0x46,
];

pub const HEADER_SIZE: usize = 0x4C;

pub const HAS_LINK_TARGET_ID_LIST: u32 = 0x0001;

pub const HAS_LINK_INFO: u32 = 0x0002;

pub const HAS_NAME: u32 = 0x0004;

pub const HAS_RELATIVE_PATH: u32 = 0x0008;

pub const HAS_WORKING_DIR: u32 = 0x0010;

pub const HAS_ARGUMENTS: u32 = 0x0020;

pub const HAS_ICON_LOCATION: u32 = 0x0040;

pub const IS_UNICODE: u32 = 0x0080;

pub const BLOCK_TRACKER: u32 = 0xA000_0003;

pub const MAX_EXTRA_BLOCKS: usize = 64;

/// The longest path in LinkInfo that is read.
pub const MAX_PATH: usize = 1024;

// ---------------------------------------------------------------------
// The texts of a shortcut
// ---------------------------------------------------------------------

/// The texts of a shortcut.
#[verifier::ext_equal]
pub struct LinkTexts {
    pub local_base_path: Option<Seq<char>>,
    pub network_path: Option<Seq<char>>,
    pub name: Option<Seq<char>>,
    pub relative_path: Option<Seq<char>>,
    pub working_dir: Option<Seq<char>>,
    pub arguments: Option<Seq<char>>,
    pub icon_location: Option<Seq<char>>,
    pub machine_id: Option<Seq<char>>,
    pub mac_address: Option<Seq<char>>,
}

/// A shortcut without texts.
pub open spec fn no_texts() -> LinkTexts {
    LinkTexts {
        local_base_path: None,
        network_path: None,
        name: None,
        relative_path: None,
        working_dir: None,
        arguments: None,
        icon_location: None,
        machine_id: None,
        mac_address: None,
    }
}

impl LinkTexts {
    /// What the shortcut points at: the local path, else the relative one,
    /// else the network one.
    pub open spec fn target(self) -> Option<Seq<char>> {
        if self.local_base_path is Some {
            self.local_base_path
        } else if self.relative_path is Some {
            self.relative_path
        } else {
            self.network_path
        }
    }

    /// The texts with the `k`th entry of StringData.
    pub open spec fn with_string(self, k: int, s: Seq<char>) -> LinkTexts {
        if k == 0 {
            LinkTexts { name: Some(s), ..self }
        } else if k == 1 {
            LinkTexts { relative_path: Some(s), ..self }
        } else if k == 2 {
            LinkTexts { working_dir: Some(s), ..self }
        } else if k == 3 {
            LinkTexts { arguments: Some(s), ..self }
        } else {
            LinkTexts { icon_location: Some(s), ..self }
        }
    }
}

struct LnkFields {
    local_base_path: Option<String>,
    network_path: Option<String>,
    name: Option<String>,
    relative_path: Option<String>,
    working_dir: Option<String>,
    arguments: Option<String>,
    icon_location: Option<String>,
    machine_id: Option<String>,
    mac_address: Option<String>,
}

impl View for LnkFields {
    type V = LinkTexts;

    closed spec fn view(&self) -> LinkTexts {
        LinkTexts {
            local_base_path: timeline::text_of(self.local_base_path),
            network_path: timeline::text_of(self.network_path),
            name: timeline::text_of(self.name),
            relative_path: timeline::text_of(self.relative_path),
            working_dir: timeline::text_of(self.working_dir),
            arguments: timeline::text_of(self.arguments),
            icon_location: timeline::text_of(self.icon_location),
            machine_id: timeline::text_of(self.machine_id),
            mac_address: timeline::text_of(self.mac_address),
        }
    }
}

impl LnkFields {
    fn new() -> (r: LnkFields)
        ensures
            r@ == no_texts(),
    {
        LnkFields {
            local_base_path: None,
            network_path: None,
            name: None,
            relative_path: None,
            working_dir: None,
            arguments: None,
            icon_location: None,
            machine_id: None,
            mac_address: None,
        }
    }

    fn target(&self) -> (r: Option<&str>)
        ensures
            r is Some == self@.target() is Some,
            r matches Some(t) ==> t@ == self@.target()->0,
    {
        if let Some(t) = &self.local_base_path {
            return Some(t.as_str());
        }
        if let Some(t) = &self.relative_path {
            return Some(t.as_str());
        }
        match &self.network_path {
            Some(t) => Some(t.as_str()),
            None => None,
        }
    }

    fn set_string(&mut self, k: usize, s: String)
        ensures
            final(self)@ == old(self)@.with_string(k as int, s@),
    {
        if k == 0 {
            self.name = Some(s);
        } else if k == 1 {
            self.relative_path = Some(s);
        } else if k == 2 {
            self.working_dir = Some(s);
        } else if k == 3 {
            self.arguments = Some(s);
        } else {
            self.icon_location = Some(s);
        }
    }
}

// ---------------------------------------------------------------------
// LinkTargetIDList and LinkInfo
// ---------------------------------------------------------------------

/// An offset as a machine holds it. None past the last that fits lies in any
/// file, so that they can all be held as the last one.
pub open spec fn held(offset: int) -> int {
    if offset <= usize::MAX {
        offset
    } else {
        usize::MAX as int
    }
}

/// Where the LinkTargetIDList at `offset` ends, if there is one.
pub open spec fn after_id_list(data: Seq<u8>, link_flags: u32, offset: int) -> int {
    if link_flags & HAS_LINK_TARGET_ID_LIST == 0 {
        offset
    } else {
        match reader::u16_at(data, offset) {
            Some(size) => offset + 2 + size,
            None => offset,
        }
    }
}

fn skip_id_list(r: &Reader, offset: usize, link_flags: u32) -> (end: usize)
    ensures
        end == held(after_id_list(r@, link_flags, offset as int)),
{
    if link_flags & HAS_LINK_TARGET_ID_LIST == 0 {
        return offset;
    }
    match r.u16(offset) {
        Some(size) => offset.saturating_add(2).saturating_add(size as usize),
        None => offset,
    }
}

/// The size of the LinkInfo at `offset`, if there is one.
pub open spec fn link_info_size(data: Seq<u8>, link_flags: u32, offset: int) -> Option<u32> {
    if link_flags & HAS_LINK_INFO == 0 {
        None
    } else {
        match reader::u32_at(data, offset) {
            Some(size) => if size >= 0x1C {
                Some(size)
            } else {
                None
            },
            None => None,
        }
    }
}

/// The text that the reference at `place` points at, counted from `base`. A
/// reference of zero points at nothing.
pub open spec fn referenced_text(data: Seq<u8>, base: int, place: int) -> Option<Seq<char>> {
    match reader::u32_at(data, place) {
        Some(offset) => if offset != 0 {
            reader::cstr_at(data, base + offset, MAX_PATH as int)
        } else {
            None
        },
        None => None,
    }
}

/// The flags of the LinkInfo at `offset`.
pub open spec fn link_info_flags(data: Seq<u8>, offset: int) -> u32 {
    match reader::u32_at(data, offset + 8) {
        Some(flags) => flags,
        None => 0,
    }
}

/// LocalBasePath, which stands where the flag VolumeIDAndLocalBasePath does.
pub open spec fn local_base_path(data: Seq<u8>, offset: int) -> Option<Seq<char>> {
    if link_info_flags(data, offset) & 0x1 != 0 {
        referenced_text(data, offset, offset + 16)
    } else {
        None
    }
}

/// NetName of the CommonNetworkRelativeLink, which stands where the flag
/// CommonNetworkRelativeLinkAndPathSuffix does.
pub open spec fn network_path(data: Seq<u8>, offset: int) -> Option<Seq<char>> {
    if link_info_flags(data, offset) & 0x2 != 0 {
        match reader::u32_at(data, offset + 20) {
            Some(link) => if link != 0 {
                referenced_text(data, offset + link, offset + link + 8)
            } else {
                None
            },
            None => None,
        }
    } else {
        None
    }
}

/// The paths of the LinkInfo at `offset`, and where it ends.
pub open spec fn link_info(data: Seq<u8>, link_flags: u32, offset: int) -> (int, LinkTexts) {
    match link_info_size(data, link_flags, offset) {
        Some(size) => (
            offset + size,
            LinkTexts {
                local_base_path: local_base_path(data, offset),
                network_path: network_path(data, offset),
                ..no_texts()
            },
        ),
        None => (offset, no_texts()),
    }
}

fn read_reference(r: &Reader, base: usize, place: usize) -> (t: Option<String>)
    ensures
        timeline::text_of(t) == referenced_text(r@, base as int, place as int),
{
    match r.u32(place) {
        Some(offset) => {
            if offset != 0 {
                match base.checked_add(offset as usize) {
                    Some(at) => r.cstr(at, MAX_PATH),
                    None => None,
                }
            } else {
                None
            }
        },
        None => None,
    }
}

fn parse_link_info(r: &Reader, offset: usize, link_flags: u32) -> (res: (usize, LnkFields))
    ensures
        res.0 == held(link_info(r@, link_flags, offset as int).0),
        res.1@ == link_info(r@, link_flags, offset as int).1,
{
    let mut out = LnkFields::new();
    if link_flags & HAS_LINK_INFO == 0 {
        return (offset, out);
    }
    let li_size: u32 = match r.u32(offset) {
        Some(v) => v,
        None => { return (offset, out); },
    };
    if li_size < 0x1C {
        return (offset, out);
    }
    let flags: u32 = match r.u32(offset.saturating_add(8)) {
        Some(v) => v,
        None => 0,
    };
    if flags & 0x1 != 0 {
        // VolumeIDAndLocalBasePath
        out.local_base_path = read_reference(r, offset, offset.saturating_add(16));
    }
    if flags & 0x2 != 0 {
        // CommonNetworkRelativeLinkAndPathSuffix
        if let Some(link) = r.u32(offset.saturating_add(20)) {
            if link != 0 {
                if let Some(base) = offset.checked_add(link as usize) {
                    out.network_path = read_reference(r, base, base.saturating_add(8));
                }
            }
        }
    }
    (offset.saturating_add(li_size as usize), out)
}

// ---------------------------------------------------------------------
// StringData
// ---------------------------------------------------------------------

/// The flag that says that the `k`th entry of StringData stands.
pub open spec fn string_flag(k: int) -> u32 {
    if k == 0 {
        HAS_NAME
    } else if k == 1 {
        HAS_RELATIVE_PATH
    } else if k == 2 {
        HAS_WORKING_DIR
    } else if k == 3 {
        HAS_ARGUMENTS
    } else {
        HAS_ICON_LOCATION
    }
}

/// The bytes of a string of `count` characters.
pub open spec fn string_size(link_flags: u32, count: u16) -> int {
    if link_flags & IS_UNICODE != 0 {
        2 * count as int
    } else {
        count as int
    }
}

/// The text of a string.
pub open spec fn string_text(link_flags: u32, bytes: Seq<u8>) -> Seq<char> {
    if link_flags & IS_UNICODE != 0 {
        text::utf16_lossy(text::units_of(bytes))
    } else {
        text::utf8_lossy(bytes)
    }
}

/// What the entries of StringData from the `k`th on add to `texts`, and where
/// they end. A truncated entry ends them.
pub open spec fn string_data(
    data: Seq<u8>,
    link_flags: u32,
    offset: int,
    k: int,
    texts: LinkTexts,
) -> (int, LinkTexts)
    decreases 5 - k,
{
    if k >= 5 {
        (offset, texts)
    } else if link_flags & string_flag(k) == 0 {
        string_data(data, link_flags, offset, k + 1, texts)
    } else {
        match reader::u16_at(data, offset) {
            Some(count) => {
                let size = string_size(link_flags, count);
                match reader::bytes_at(data, offset + 2, size) {
                    Some(bytes) => string_data(
                        data,
                        link_flags,
                        offset + 2 + size,
                        k + 1,
                        texts.with_string(k, string_text(link_flags, bytes)),
                    ),
                    None => (offset + 2, texts),
                }
            },
            None => (offset, texts),
        }
    }
}

fn flag_of_string(k: usize) -> (r: u32)
    ensures
        r == string_flag(k as int),
{
    if k == 0 {
        HAS_NAME
    } else if k == 1 {
        HAS_RELATIVE_PATH
    } else if k == 2 {
        HAS_WORKING_DIR
    } else if k == 3 {
        HAS_ARGUMENTS
    } else {
        HAS_ICON_LOCATION
    }
}

fn parse_string_data(r: &Reader, start: usize, link_flags: u32, out: &mut LnkFields) -> (end: usize)
    ensures
        end == string_data(r@, link_flags, start as int, 0, old(out)@).0,
        final(out)@ == string_data(r@, link_flags, start as int, 0, old(out)@).1,
{
    let unicode = link_flags & IS_UNICODE != 0;
    let ghost whole = string_data(r@, link_flags, start as int, 0, out@);
    let mut offset: usize = start;
    let mut k: usize = 0;
    while k < 5
        invariant
            k <= 5,
            unicode == (link_flags & IS_UNICODE != 0),
            whole == string_data(r@, link_flags, start as int, 0, old(out)@),
            string_data(r@, link_flags, offset as int, k as int, out@) == whole,
        decreases 5 - k,
    {
        if link_flags & flag_of_string(k) != 0 {
            let count: u16 = match r.u16(offset) {
                Some(c) => c,
                None => {
                    return offset;
                },
            };
            offset = offset + 2;
            let nbytes: usize = if unicode {
                2 * count as usize
            } else {
                count as usize
            };
            let buf = match r.slice(offset, nbytes) {
                Some(b) => b,
                None => {
                    return offset;
                },
            };
            offset = offset + nbytes;
            let s = if unicode {
                text::utf16le_text(buf)
            } else {
                text::utf8_text(buf)
            };
            out.set_string(k, s);
        }
        k = k + 1;
    }
    offset
}

// ---------------------------------------------------------------------
// ExtraData
// ---------------------------------------------------------------------

/// Bytes in hexadecimal, with colons between them.
pub open spec fn colon_hex(bytes: Seq<u8>) -> Seq<char>
    decreases bytes.len(),
{
    if bytes.len() == 0 {
        seq![]
    } else if bytes.len() == 1 {
        text::hex(bytes[0] as nat, 2, false)
    } else {
        colon_hex(bytes.drop_last()).push(':') + text::hex(bytes.last() as nat, 2, false)
    }
}

/// The MAC address in a version-1 UUID. One of another version, or with no
/// node, has none.
pub open spec fn uuid_mac(guid: Seq<u8>) -> Option<Seq<char>> {
    let unset = guid[10] == 0 && guid[11] == 0 && guid[12] == 0 && guid[13] == 0 && guid[14] == 0
        && guid[15] == 0;
    if guid.len() == 16 && guid[7] / 16 == 1 && !unset {
        Some(colon_hex(guid.subrange(10, 16)))
    } else {
        None
    }
}

fn uuid_v1_mac(guid: &[u8]) -> (r: Option<String>)
    ensures
        timeline::text_of(r) == uuid_mac(guid@),
{
    if guid.len() != 16 {
        return None;
    }
    if guid[7] / 16 != 1 {
        return None;
    }
    if guid[10] == 0 && guid[11] == 0 && guid[12] == 0 && guid[13] == 0 && guid[14] == 0
        && guid[15] == 0 {
        return None;
    }
    let node = &guid[10..16];
    let mut s = String::new();
    let mut i: usize = 0;
    while i < node.len()
        invariant
            i <= node@.len(),
            s@ == colon_hex(node@.take(i as int)),
        decreases node@.len() - i,
    {
        assert(node@.take(i + 1).drop_last() =~= node@.take(i as int));
        if i > 0 {
            s.push(':');
        }
        text::push_hex(&mut s, node[i] as u64, 2, false);
        assert(s@ =~= colon_hex(node@.take(i + 1)));
        i = i + 1;
    }
    assert(node@.take(node@.len() as int) =~= node@);
    Some(s)
}

/// Whether a number is the signature of a block of ExtraData.
pub open spec fn is_block_signature(sig: u32) -> bool {
    0xA000_0000 <= sig <= 0xA000_000C
}

/// The signature of the block at `offset`.
pub open spec fn block_signature(data: Seq<u8>, offset: int) -> u32 {
    match reader::u32_at(data, offset + 4) {
        Some(sig) => sig,
        None => 0,
    }
}

/// What the block at `offset` adds to `texts`: a tracker block names the
/// machine that built the shortcut and its MAC address.
pub open spec fn with_block(data: Seq<u8>, offset: int, size: u32, texts: LinkTexts) -> LinkTexts {
    if block_signature(data, offset) == BLOCK_TRACKER && size >= 0x60 {
        LinkTexts {
            machine_id: match reader::bytes_at(data, offset + 16, 16) {
                Some(machine) => Some(text::utf8_lossy(reader::before_nul(machine))),
                None => texts.machine_id,
            },
            mac_address: match reader::bytes_at(data, offset + 48, 16) {
                Some(guid) => uuid_mac(guid),
                None => texts.mac_address,
            },
            ..texts
        }
    } else {
        texts
    }
}

/// What the blocks of ExtraData at `offset`, `left` of them at most, add to
/// `texts`, and where they end.
pub open spec fn extra_data(data: Seq<u8>, offset: int, left: nat, texts: LinkTexts) -> (
    int,
    LinkTexts,
)
    decreases left,
{
    if left == 0 {
        (offset, texts)
    } else {
        match reader::u32_at(data, offset) {
            Some(size) => if size < 4 {
                (offset + 4, texts)
            } else if !is_block_signature(block_signature(data, offset)) {
                (offset, texts)
            } else {
                extra_data(
                    data,
                    offset + size,
                    (left - 1) as nat,
                    with_block(data, offset, size, texts),
                )
            },
            None => (offset, texts),
        }
    }
}

fn parse_block(r: &Reader, offset: usize, size: u32, sig: u32, out: &mut LnkFields)
    requires
        sig == block_signature(r@, offset as int),
    ensures
        final(out)@ == with_block(r@, offset as int, size, old(out)@),
{
    if sig == BLOCK_TRACKER && size >= 0x60 {
        if let Some(machine) = r.slice(offset.saturating_add(16), 16) {
            let nul = reader::nul_position(machine);
            let name = &machine[0..nul];
            assert(name@ =~= machine@.take(nul as int));
            out.machine_id = Some(text::utf8_text(name));
        }
        if let Some(guid) = r.slice(offset.saturating_add(48), 16) {
            out.mac_address = uuid_v1_mac(guid);
        }
    }
}

fn parse_extra_data(r: &Reader, start: usize, Ghost(from): Ghost<int>, out: &mut LnkFields) -> (end:
    usize)
    requires
        start == held(from),
    ensures
        end == held(extra_data(r@, from, MAX_EXTRA_BLOCKS as nat, old(out)@).0),
        final(out)@ == extra_data(r@, from, MAX_EXTRA_BLOCKS as nat, old(out)@).1,
{
    let ghost whole = extra_data(r@, from, MAX_EXTRA_BLOCKS as nat, out@);
    let mut offset: usize = start;
    let ghost mut at = from;
    let mut left: usize = MAX_EXTRA_BLOCKS;
    while left > 0
        invariant
            whole == extra_data(r@, from, MAX_EXTRA_BLOCKS as nat, old(out)@),
            offset == held(at),
            extra_data(r@, at, left as nat, out@) == whole,
        decreases left,
    {
        let size: u32 = match r.u32(offset) {
            Some(s) => s,
            None => {
                return offset;
            },
        };
        if size < 4 {
            return offset + 4;
        }
        let sig: u32 = match r.u32(offset.saturating_add(4)) {
            Some(sig) => sig,
            None => 0,
        };
        if sig < 0xA000_0000 || sig > 0xA000_000C {
            return offset;
        }
        parse_block(r, offset, size, sig, out);
        proof {
            at = at + size;
        }
        offset = offset.saturating_add(size as usize);
        left = left - 1;
    }
    offset
}

// ---------------------------------------------------------------------
// The event of a shortcut
// ---------------------------------------------------------------------

/// The 32-bit number at `offset` of the header, 0 where it is cut off.
pub open spec fn header_u32(data: Seq<u8>, offset: int) -> u32 {
    match reader::u32_at(data, offset) {
        Some(n) => n,
        None => 0,
    }
}

/// The texts of a shortcut, and where its last structure ends.
pub open spec fn link_texts(data: Seq<u8>) -> (int, LinkTexts) {
    let link_flags = header_u32(data, 20);
    let (strings, paths) = link_info(
        data,
        link_flags,
        after_id_list(data, link_flags, HEADER_SIZE as int),
    );
    let (blocks, texts) = string_data(data, link_flags, strings, 0, paths);
    extra_data(data, blocks, MAX_EXTRA_BLOCKS as nat, texts)
}

/// The target of a shortcut, as its event names it.
pub open spec fn shown_target(texts: LinkTexts) -> Seq<char> {
    match texts.target() {
        Some(target) => target,
        None => "(no target)"@,
    }
}

/// The description of a shortcut: its target, and its arguments unless they
/// are blank.
pub open spec fn description(texts: LinkTexts) -> Seq<char> {
    let base = "Shortcut targets "@ + shown_target(texts);
    match texts.arguments {
        Some(arguments) => if text::is_blank(arguments) {
            base
        } else {
            base + " with arguments: "@ + arguments
        },
        None => base,
    }
}

/// When a shortcut's target was written, else when it was created. Builder
/// kits zero both: then the file itself gives the moment.
pub open spec fn link_moment(data: Seq<u8>, file: FileView, now: time::Moment) -> time::Moment {
    match (super::moment_at(data, 44), super::moment_at(data, 28)) {
        (Some(written), _) => written,
        (None, Some(created)) => created,
        (None, None) => file.moment(now),
    }
}

/// Whether neither a shortcut nor its file gives a moment.
pub open spec fn is_undated(data: Seq<u8>, file: FileView) -> bool {
    is_lnk(data) && super::moment_at(data, 44) is None && super::moment_at(data, 28) is None
        && file.modified is None
}

/// The bytes behind the last structure of a shortcut.
pub open spec fn overlay_len(data: Seq<u8>) -> int {
    if link_texts(data).0 <= data.len() {
        data.len() - link_texts(data).0
    } else {
        0
    }
}

/// The event of a shortcut.
pub open spec fn link_event(data: Seq<u8>, file: FileView, now: time::Moment) -> EventView {
    let texts = link_texts(data).1;
    let event = EventView::new(
        link_moment(data, file, now),
        ArtifactSource::Lnk,
        "lnk_target_referenced"@,
        description(texts),
        file.path,
    ).with_target(shown_target(texts)).with_number(
        "show_command"@,
        header_u32(data, 60) as int,
    ).with_text(
        "link_flags"@,
        "0x"@ + text::hex(header_u32(data, 20) as nat, 8, false),
    ).with_text_of("target_created"@, time::moment_text(super::moment_at(data, 28))).with_text_of(
        "target_accessed"@,
        time::moment_text(super::moment_at(data, 36)),
    ).with_text_of("arguments"@, texts.arguments).with_text_of(
        "working_dir"@,
        texts.working_dir,
    ).with_text_of("icon_location"@, texts.icon_location).with_text_of(
        "builder_machine_id"@,
        texts.machine_id,
    ).with_text_of("builder_mac_address"@, texts.mac_address);
    if overlay_len(data) > 16 {
        event.with_number("overlay_bytes"@, overlay_len(data))
    } else {
        event
    }
}

/// Whether bytes start as a shortcut does.
pub open spec fn is_lnk(data: Seq<u8>) -> bool {
    data.len() >= 20 && data.take(20) == HEADER_MAGIC@
}

fn read_u32(r: &Reader, offset: usize) -> (n: u32)
    ensures
        n == header_u32(r@, offset as int),
{
    match r.u32(offset) {
        Some(n) => n,
        None => 0,
    }
}

/// No string stands past the last offset that a machine holds.
proof fn lemma_no_strings(data: Seq<u8>, link_flags: u32, offset: int, k: int, texts: LinkTexts)
    requires
        data.len() <= usize::MAX,
        offset >= usize::MAX,
    ensures
        string_data(data, link_flags, offset, k, texts) == (offset, texts),
    decreases 5 - k,
{
    if k < 5 {
        lemma_no_strings(data, link_flags, offset, k + 1, texts);
    }
}

fn parse_texts(r: &Reader, link_flags: u32) -> (res: (usize, LnkFields))
    requires
        link_flags == header_u32(r@, 20),
        r@.len() <= usize::MAX,
    ensures
        res.0 == held(link_texts(r@).0),
        res.1@ == link_texts(r@).1,
{
    let ids_end = skip_id_list(r, HEADER_SIZE, link_flags);
    let (info_end, mut fields) = parse_link_info(r, ids_end, link_flags);
    let ghost strings = link_info(
        r@,
        link_flags,
        after_id_list(r@, link_flags, HEADER_SIZE as int),
    );
    let strings_end = parse_string_data(r, info_end, link_flags, &mut fields);
    let ghost blocks = string_data(r@, link_flags, strings.0, 0, strings.1);
    proof {
        if strings.0 >= usize::MAX {
            lemma_no_strings(r@, link_flags, strings.0, 0, strings.1);
            lemma_no_strings(r@, link_flags, usize::MAX as int, 0, strings.1);
        }
    }
    let end = parse_extra_data(r, strings_end, Ghost(blocks.0), &mut fields);
    (end, fields)
}

fn describe(fields: &LnkFields) -> (res: (String, String))
    ensures
        res.0@ == shown_target(fields@),
        res.1@ == description(fields@),
{
    let target = match fields.target() {
        Some(target) => target.to_string(),
        None => "(no target)".to_string(),
    };
    let mut description = "Shortcut targets ".to_string();
    description.append(target.as_str());
    if let Some(arguments) = &fields.arguments {
        if !text::blank(arguments.as_str()) {
            description.append(" with arguments: ");
            description.append(arguments.as_str());
        }
    }
    (target, description)
}

/// The first eight bytes of a shortcut.
pub proof fn lemma_first_bytes(data: Seq<u8>)
    requires
        is_lnk(data),
    ensures
        data[0] == 0x4c,
        data[1] == 0,
        data[2] == 0,
        data[3] == 0,
        data[4] == 0x01,
        data[5] == 0x14,
        data[6] == 0x02,
        data[7] == 0,
{
    let start = data.take(20);
    assert(start[0] == 0x4c && start[1] == 0 && start[2] == 0 && start[3] == 0);
    assert(start[4] == 0x01 && start[5] == 0x14 && start[6] == 0x02 && start[7] == 0);
}

/// The parser of shortcuts.
pub struct LnkParser;

impl ArtifactParser for LnkParser {
    open spec fn source(&self) -> ArtifactSource {
        ArtifactSource::Lnk
    }

    open spec fn recognizes(&self, raw: Seq<u8>) -> bool {
        is_lnk(raw)
    }

    open spec fn presents(&self, raw: Seq<u8>, file: FileView) -> nat {
        if is_undated(raw, file) {
            1
        } else {
            0
        }
    }

    open spec fn timeline(&self, raw: Seq<u8>, file: FileView, readings: Seq<time::Moment>) -> Seq<
        EventView,
    > {
        if is_lnk(raw) {
            seq![link_event(raw, file, readings[0])]
        } else {
            seq![]
        }
    }

    fn source_name(&self) -> (r: &'static str) {
        "lnk"
    }

    fn matches(&self, raw: &[u8]) -> (r: bool) {
        assert(self.recognizes(raw@) == is_lnk(raw@));
        if raw.len() < 20 {
            return false;
        }
        let start = &raw[0..20];
        assert(start@ =~= raw@.take(20));
        text::same_bytes(start, &HEADER_MAGIC)
    }

    fn parse_with(&self, raw: &[u8], file: &SourceFile, clock: &mut Clock) -> (r: Vec<
        TimelineEvent,
    >) {
        let mut events: Vec<TimelineEvent> = Vec::new();
        let size: usize = raw.len();
        assert(self.presents(raw@, file@) == if is_undated(raw@, file@) {
            1nat
        } else {
            0nat
        });
        if !self.matches(raw) {
            proof {
                time::lemma_not_asked(*clock);
            }
            assert(timeline::views(events@) =~= seq![]);
            return events;
        }
        let r = Reader::new(raw);
        let link_flags = read_u32(&r, 20);
        let show_command = read_u32(&r, 60);
        let ctime = super::read_moment(&r, 28);
        let wtime = super::read_moment(&r, 44);
        let atime = super::read_moment(&r, 36);
        let (end, fields) = parse_texts(&r, link_flags);
        let overlay_len: usize = size.saturating_sub(end);
        proof {
            time::lemma_not_asked(*clock);
        }
        let timestamp = match (wtime, ctime) {
            (Some(written), _) => written,
            (None, Some(created)) => created,
            (None, None) => file.moment(clock),
        };
        let (target, description) = describe(&fields);
        let mut flags_text = "0x".to_string();
        text::push_hex(&mut flags_text, link_flags as u64, 8, false);
        let mut event = TimelineEvent::new(
            timestamp,
            ArtifactSource::Lnk,
            "lnk_target_referenced",
            description,
            file.path.clone(),
        ).with_target(target).with_number("show_command", show_command as u64).with_text(
            "link_flags",
            flags_text,
        ).with_text_of("target_created", Timestamp::text_of(&ctime)).with_text_of(
            "target_accessed",
            Timestamp::text_of(&atime),
        ).with_text_of("arguments", fields.arguments).with_text_of(
            "working_dir",
            fields.working_dir,
        ).with_text_of("icon_location", fields.icon_location).with_text_of(
            "builder_machine_id",
            fields.machine_id,
        ).with_text_of("builder_mac_address", fields.mac_address);
        if overlay_len > 16 {
            event = event.with_number("overlay_bytes", overlay_len as u64);
        }
        events.push(event);
        proof {
            let readings = clock.since(old(clock));
            assert(timestamp@ == link_moment(raw@, file@, readings[0]));
            assert(timeline::views(events@) =~= seq![link_event(raw@, file@, readings[0])]);
        }
        events
    }
}

// ---------------------------------------------------------------------
// Laws
// ---------------------------------------------------------------------

/// A shortcut gives one event, of this source and of its file's path. It names
/// the target, and its description starts with it.
pub proof fn law_shortcut_gives_one_event(
    raw: Seq<u8>,
    file: FileView,
    readings: Seq<time::Moment>,
)
    requires
        is_lnk(raw),
    ensures
        LnkParser.timeline(raw, file, readings).len() == 1,
        ({
            let event = LnkParser.timeline(raw, file, readings)[0];
            let start = "Shortcut targets "@ + shown_target(link_texts(raw).1);
            &&& event.source == ArtifactSource::Lnk
            &&& event.artifact_path == file.path
            &&& event.target_path == Some(shown_target(link_texts(raw).1))
            &&& start.is_prefix_of(event.description)
        }),
{
    let start = "Shortcut targets "@ + shown_target(link_texts(raw).1);
    let text = LnkParser.timeline(raw, file, readings)[0].description;
    assert(start =~= text.subrange(0, start.len() as int));
}

} // verus!
