//! The values of BinXML.

use vstd::prelude::*;

use super::super::reader;
use super::super::reader::{Cursor, Reader};
use crate::text;
use crate::timeline::time;

verus! {

pub const VT_NULL: u8 = 0x00;

pub const VT_WSTR: u8 = 0x01;

pub const VT_STR: u8 = 0x02;

pub const VT_U8: u8 = 0x04;

pub const VT_U16: u8 = 0x06;

pub const VT_U32: u8 = 0x08;

pub const VT_U64: u8 = 0x0A;

pub const VT_BOOL: u8 = 0x0D;

pub const VT_BINARY: u8 = 0x0E;

pub const VT_GUID: u8 = 0x0F;

pub const VT_FILETIME: u8 = 0x11;

pub const VT_SYSTEMTIME: u8 = 0x12;

pub const VT_SID: u8 = 0x13;

pub const VT_HEX32: u8 = 0x14;

pub const VT_HEX64: u8 = 0x15;

pub const VT_BXML: u8 = 0x21;

// ---------------------------------------------------------------------
// Names
// ---------------------------------------------------------------------

/// The name of an element or attribute, stored at `offset`: the offset of the
/// next name (4 bytes), a hash (2), the number of characters (2), these in
/// UTF-16, a zero. It is empty where it is cut off.
pub open spec fn name_at(data: Seq<u8>, offset: int) -> Seq<char> {
    match reader::u16_at(data, offset + 6) {
        Some(len) => match reader::bytes_at(data, offset + 8, 2 * len) {
            Some(bytes) => text::utf16_lossy(text::units_of(bytes)),
            None => seq![],
        },
        None => seq![],
    }
}

/// The name that is stored at `offset`.
pub fn binxml_name(data: &[u8], offset: usize) -> (r: String)
    ensures
        r@ == name_at(data@, offset as int),
{
    let reader = Reader::new(data);
    if let Some(len) = reader.u16(offset.saturating_add(6)) {
        if let Some(bytes) = reader.slice(offset + 8, 2 * len as usize) {
            return text::utf16le_text(bytes);
        }
    }
    String::new()
}

// ---------------------------------------------------------------------
// Security identifiers
// ---------------------------------------------------------------------

/// The `i`th subauthority of a security identifier.
pub open spec fn subauthority(data: Seq<u8>, i: int) -> u32 {
    reader::le32(data, 8 + 4 * i)
}

/// The first `n` subauthorities, with dashes between them.
pub open spec fn subauthorities(data: Seq<u8>, n: nat) -> Seq<char>
    decreases n,
{
    if n == 0 {
        seq![]
    } else if n == 1 {
        text::decimal(subauthority(data, 0) as nat)
    } else {
        subauthorities(data, (n - 1) as nat).push('-') + text::decimal(
            subauthority(data, n - 1) as nat,
        )
    }
}

/// The authority of a security identifier, six bytes with the highest first.
pub open spec fn authority(data: Seq<u8>) -> nat {
    (data[2] * 0x100_0000_0000 + data[3] * 0x1_0000_0000 + data[4] * 0x100_0000 + data[5] * 0x1_0000
        + data[6] * 0x100 + data[7]) as nat
}

/// A security identifier as text, empty where it is cut off.
pub open spec fn sid_text(data: Seq<u8>) -> Seq<char> {
    if data.len() < 8 || data.len() < 8 + 4 * data[1] {
        seq![]
    } else {
        "S-"@ + text::decimal(data[0] as nat) + "-"@ + text::decimal(authority(data)) + "-"@
            + subauthorities(data, data[1] as nat)
    }
}

/// A security identifier as text.
pub fn parse_sid(data: &[u8]) -> (r: String)
    ensures
        r@ == sid_text(data@),
{
    if data.len() < 8 || data.len() - 8 < 4 * data[1] as usize {
        return String::new();
    }
    let high: u64 = data[2] as u64 * 0x100_0000_0000 + data[3] as u64 * 0x1_0000_0000;
    let low: u64 = data[4] as u64 * 0x100_0000 + data[5] as u64 * 0x1_0000 + data[6] as u64 * 0x100
        + data[7] as u64;
    let count: usize = data[1] as usize;
    let mut s = "S-".to_string();
    text::push_decimal(&mut s, data[0] as u64);
    s.append("-");
    text::push_decimal(&mut s, high + low);
    s.append("-");
    let ghost start = s@;
    let reader = Reader::new(data);
    for i in 0..count
        invariant
            reader@ == data@,
            count == data@[1],
            data@.len() >= 8 + 4 * count,
            s@ == start + subauthorities(data@, i as nat),
    {
        if i > 0 {
            s.push('-');
        }
        if let Some(sub) = reader.u32(8 + 4 * i) {
            text::push_decimal(&mut s, sub as u64);
        }
        assert(s@ =~= start + subauthorities(data@, (i + 1) as nat));
    }
    s
}

// ---------------------------------------------------------------------
// Values
// ---------------------------------------------------------------------

/// A FILETIME as text. One that names no moment stands for the FILETIME epoch.
pub open spec fn filetime_text(ft: u64) -> Seq<char> {
    match time::filetime_moment(ft) {
        Some(m) => time::rfc3339_text(m.secs, m.nanos),
        None => "1601-01-01T00:00:00Z"@,
    }
}

/// The 16-bit number at `offset` of a value.
pub open spec fn part(data: Seq<u8>, offset: int) -> nat {
    text::le16(data[offset], data[offset + 1]) as nat
}

/// A GUID as text.
pub open spec fn guid_text(data: Seq<u8>) -> Seq<char> {
    "{"@ + text::hex(reader::le32(data, 0) as nat, 8, true) + "-"@ + text::hex(
        part(data, 4),
        4,
        true,
    ) + "-"@ + text::hex(part(data, 6), 4, true) + "-"@ + text::hex(data[8] as nat, 2, true)
        + text::hex(data[9] as nat, 2, true) + "-"@ + text::hex(data[10] as nat, 2, true)
        + text::hex(data[11] as nat, 2, true) + text::hex(data[12] as nat, 2, true) + text::hex(
        data[13] as nat,
        2,
        true,
    ) + "}"@
}

/// A SYSTEMTIME as text.
pub open spec fn systemtime_text(data: Seq<u8>) -> Seq<char> {
    text::zero_padded(text::decimal(part(data, 0)), 4) + "-"@ + text::zero_padded(
        text::decimal(part(data, 2)),
        2,
    ) + "-"@ + text::zero_padded(text::decimal(part(data, 6)), 2) + "T"@ + text::zero_padded(
        text::decimal(part(data, 8)),
        2,
    ) + ":"@ + text::zero_padded(text::decimal(part(data, 10)), 2) + ":"@ + text::zero_padded(
        text::decimal(part(data, 12)),
        2,
    ) + "Z"@
}

/// The bytes of a value of a type whose size is fixed.
pub open spec fn fixed_size(vtype: u8) -> Option<int> {
    if vtype == VT_U8 {
        Some(1)
    } else if vtype == VT_U16 {
        Some(2)
    } else if vtype == VT_U32 || vtype == VT_HEX32 || vtype == VT_BOOL {
        Some(4)
    } else if vtype == VT_U64 || vtype == VT_HEX64 || vtype == VT_FILETIME {
        Some(8)
    } else if vtype == VT_GUID || vtype == VT_SYSTEMTIME {
        Some(16)
    } else {
        None
    }
}

/// The text of a value of a type whose size is fixed, of which `data` has
/// enough bytes.
pub open spec fn fixed_text(data: Seq<u8>, vtype: u8) -> Seq<char> {
    if vtype == VT_U8 {
        text::decimal(data[0] as nat)
    } else if vtype == VT_U16 {
        text::decimal(part(data, 0))
    } else if vtype == VT_U32 {
        text::decimal(reader::le32(data, 0) as nat)
    } else if vtype == VT_U64 {
        text::decimal(reader::u64_at(data, 0)->0 as nat)
    } else if vtype == VT_HEX32 {
        "0x"@ + text::hex(reader::le32(data, 0) as nat, 8, false)
    } else if vtype == VT_HEX64 {
        "0x"@ + text::hex(reader::u64_at(data, 0)->0 as nat, 16, false)
    } else if vtype == VT_FILETIME {
        filetime_text(reader::u64_at(data, 0)->0)
    } else if vtype == VT_GUID {
        guid_text(data)
    } else if vtype == VT_BOOL {
        if reader::le32(data, 0) != 0 {
            "true"@
        } else {
            "false"@
        }
    } else {
        systemtime_text(data)
    }
}

/// The text of a value. One of an unknown type, or with too few bytes, is
/// given in hexadecimal.
pub open spec fn value_text(data: Seq<u8>, vtype: u8) -> Seq<char> {
    if vtype == VT_WSTR {
        text::utf16_lossy(text::units_of(data))
    } else if vtype == VT_STR {
        text::utf8_lossy(data)
    } else if vtype == VT_SID {
        sid_text(data)
    } else {
        match fixed_size(vtype) {
            Some(size) => if data.len() >= size {
                fixed_text(data, vtype)
            } else {
                text::hex_dump(data)
            },
            None => text::hex_dump(data),
        }
    }
}

fn decode_guid(data: &[u8]) -> (r: String)
    requires
        data@.len() >= 16,
    ensures
        r@ == guid_text(data@),
{
    let reader = Reader::new(data);
    let mut s = "{".to_string();
    if let (Some(d1), Some(d2), Some(d3)) = (reader.u32(0), reader.u16(4), reader.u16(6)) {
        text::push_hex(&mut s, d1 as u64, 8, true);
        s.append("-");
        text::push_hex(&mut s, d2 as u64, 4, true);
        s.append("-");
        text::push_hex(&mut s, d3 as u64, 4, true);
    }
    s.append("-");
    text::push_hex(&mut s, data[8] as u64, 2, true);
    text::push_hex(&mut s, data[9] as u64, 2, true);
    s.append("-");
    text::push_hex(&mut s, data[10] as u64, 2, true);
    text::push_hex(&mut s, data[11] as u64, 2, true);
    text::push_hex(&mut s, data[12] as u64, 2, true);
    text::push_hex(&mut s, data[13] as u64, 2, true);
    s.append("}");
    s
}

fn push_part(s: &mut String, data: &[u8], offset: usize, width: usize)
    requires
        offset + 2 <= data@.len(),
    ensures
        final(s)@ == old(s)@ + text::zero_padded(
            text::decimal(part(data@, offset as int)),
            width as nat,
        ),
{
    let n: u16 = data[offset] as u16 + 0x100 * (data[offset + 1] as u16);
    text::push_padded(s, n as u64, width);
}

fn decode_systemtime(data: &[u8]) -> (r: String)
    requires
        data@.len() >= 16,
    ensures
        r@ == systemtime_text(data@),
{
    let mut s = String::new();
    push_part(&mut s, data, 0, 4);
    s.append("-");
    push_part(&mut s, data, 2, 2);
    s.append("-");
    push_part(&mut s, data, 6, 2);
    s.append("T");
    push_part(&mut s, data, 8, 2);
    s.append(":");
    push_part(&mut s, data, 10, 2);
    s.append(":");
    push_part(&mut s, data, 12, 2);
    s.append("Z");
    assert(s@ =~= systemtime_text(data@));
    s
}

fn decode_u64(v: u64, vtype: u8) -> (r: String)
    ensures
        vtype == VT_U64 ==> r@ == text::decimal(v as nat),
        vtype == VT_HEX64 ==> r@ == "0x"@ + text::hex(v as nat, 16, false),
        vtype == VT_FILETIME ==> r@ == filetime_text(v),
        vtype == VT_FILETIME ==> (time::filetime_moment(v) matches Some(m)
            ==> time::four_digit_year(m.secs, m.nanos) ==> time::rfc3339_parts(r@) == Some(
            (m.secs, m.nanos),
        )),
{
    if vtype == VT_U64 {
        text::decimal_text(v)
    } else if vtype == VT_HEX64 {
        let mut s = "0x".to_string();
        text::push_hex(&mut s, v, 16, false);
        s
    } else {
        match time::filetime_to_datetime(v) {
            Some(t) => t.to_rfc3339(),
            None => "1601-01-01T00:00:00Z".to_string(),
        }
    }
}

fn decode_u32(v: u32, vtype: u8) -> (r: String)
    ensures
        vtype == VT_U32 ==> r@ == text::decimal(v as nat),
        vtype == VT_HEX32 ==> r@ == "0x"@ + text::hex(v as nat, 8, false),
        vtype == VT_BOOL ==> r@ == if v != 0 {
            "true"@
        } else {
            "false"@
        },
{
    if vtype == VT_U32 {
        text::decimal_text(v as u64)
    } else if vtype == VT_HEX32 {
        let mut s = "0x".to_string();
        text::push_hex(&mut s, v as u64, 8, false);
        s
    } else if v != 0 {
        "true".to_string()
    } else {
        "false".to_string()
    }
}

/// The moment of a value that is a FILETIME, where it names one in the years
/// 0 to 9999.
pub open spec fn dated_filetime(data: Seq<u8>, vtype: u8) -> Option<time::Moment> {
    match reader::u64_at(data, 0) {
        Some(ft) => match time::filetime_moment(ft) {
            Some(m) => if vtype == VT_FILETIME && time::four_digit_year(m.secs, m.nanos) {
                Some(m)
            } else {
                None
            },
            None => None,
        },
        None => None,
    }
}

/// The text of a value. That of a FILETIME is read back to its moment.
pub fn decode_value(data: &[u8], vtype: u8) -> (r: String)
    ensures
        r@ == value_text(data@, vtype),
        dated_filetime(data@, vtype) matches Some(m) ==> time::rfc3339_parts(r@) == Some(
            (m.secs, m.nanos),
        ),
{
    let reader = Reader::new(data);
    match vtype {
        VT_WSTR => {
            return text::utf16le_text(data);
        },
        VT_STR => {
            return text::utf8_text(data);
        },
        VT_SID => {
            return parse_sid(data);
        },
        VT_U8 => {
            if data.len() >= 1 {
                return text::decimal_text(data[0] as u64);
            }
        },
        VT_U16 => {
            if let Some(v) = reader.u16(0) {
                return text::decimal_text(v as u64);
            }
        },
        VT_U32 | VT_HEX32 | VT_BOOL => {
            if let Some(v) = reader.u32(0) {
                return decode_u32(v, vtype);
            }
        },
        VT_U64 | VT_HEX64 | VT_FILETIME => {
            if let Some(v) = reader.u64(0) {
                return decode_u64(v, vtype);
            }
        },
        VT_GUID => {
            if data.len() >= 16 {
                return decode_guid(data);
            }
        },
        VT_SYSTEMTIME => {
            if data.len() >= 16 {
                return decode_systemtime(data);
            }
        },
        _ => {},
    }
    text::hex_dump_text(data)
}

// ---------------------------------------------------------------------
// Values in a stream
// ---------------------------------------------------------------------

/// A text that is read at `pos`, and where it ends: `size` bytes that are a
/// value of a type. Where they are cut off it is empty and ends at `pos`.
pub open spec fn sized_value(data: Seq<u8>, pos: int, size: int, vtype: u8) -> (Seq<char>, int) {
    match reader::bytes_at(data, pos, size) {
        Some(bytes) => (value_text(bytes, vtype), pos + size),
        None => (seq![], pos),
    }
}

/// The text of the value at `pos` of a stream, and where it ends. Strings and
/// binary data start with their length. A value of an unknown type takes no
/// bytes.
pub open spec fn value_at(data: Seq<u8>, pos: int, vtype: u8) -> (Seq<char>, int) {
    if vtype == VT_WSTR || vtype == VT_STR || vtype == VT_BINARY {
        match reader::u16_at(data, pos) {
            Some(len) => sized_value(
                data,
                pos + 2,
                if vtype == VT_WSTR {
                    2 * len as int
                } else {
                    len as int
                },
                vtype,
            ),
            None => (seq![], pos),
        }
    } else if vtype == VT_SID {
        match reader::byte_at(data, pos + 1) {
            Some(count) => sized_value(data, pos, 8 + 4 * count, vtype),
            None => (seq![], pos),
        }
    } else {
        match fixed_size(vtype) {
            Some(size) => sized_value(data, pos, size, vtype),
            None => (seq![], pos),
        }
    }
}

fn read_sized(r: &mut Cursor, size: usize, vtype: u8) -> (t: String)
    ensures
        final(r).data@ == old(r).data@,
        t@ == sized_value(old(r).data@, old(r).pos as int, size as int, vtype).0,
        final(r).pos == sized_value(old(r).data@, old(r).pos as int, size as int, vtype).1,
{
    match r.read(size) {
        Some(bytes) => decode_value(bytes, vtype),
        None => String::new(),
    }
}

/// Reads the value at the cursor.
pub fn read_typed_value(r: &mut Cursor, vtype: u8) -> (t: String)
    ensures
        final(r).data@ == old(r).data@,
        t@ == value_at(old(r).data@, old(r).pos as int, vtype).0,
        final(r).pos == value_at(old(r).data@, old(r).pos as int, vtype).1,
{
    match vtype {
        VT_WSTR => match r.u16() {
            Some(len) => read_sized(r, 2 * len as usize, vtype),
            None => String::new(),
        },
        VT_STR | VT_BINARY => match r.u16() {
            Some(len) => read_sized(r, len as usize, vtype),
            None => String::new(),
        },
        VT_SID => {
            if r.remaining() < 2 {
                return String::new();
            }
            let count = r.data[r.pos + 1];
            read_sized(r, 8 + 4 * count as usize, vtype)
        },
        VT_U8 => read_sized(r, 1, vtype),
        VT_U16 => read_sized(r, 2, vtype),
        VT_U32 | VT_HEX32 | VT_BOOL => read_sized(r, 4, vtype),
        VT_U64 | VT_HEX64 | VT_FILETIME => read_sized(r, 8, vtype),
        VT_GUID | VT_SYSTEMTIME => read_sized(r, 16, vtype),
        VT_NULL => String::new(),
        _ => String::new(),
    }
}

} // verus!
