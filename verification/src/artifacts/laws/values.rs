//! What the values of BinXML stand for, by the codes of their types.

use vstd::prelude::*;

use super::lnk;
use crate::artifacts::evtx::values;
use crate::artifacts::reader;
use crate::text;
use crate::timeline::time;

verus! {

/// The 64-bit number at the start of a value.
pub open spec fn wide_number(data: Seq<u8>) -> nat {
    (reader::le32(data, 0) + 0x1_0000_0000 * reader::le32(data, 4)) as nat
}

/// The 16-bit number at an offset of a value.
pub open spec fn short_number(data: Seq<u8>, offset: int) -> nat {
    (data[offset] + 256 * data[offset + 1]) as nat
}

/// Strings and numbers have their texts: UTF-16 (1), UTF-8 (2), numbers of one,
/// two, four and eight bytes (4, 6, 8, 10), truth values (13), binary data (14),
/// and hexadecimal numbers of four and eight bytes (20, 21).
pub proof fn law_strings_and_numbers_have_their_texts(data: Seq<u8>)
    ensures
        values::value_text(data, 1) == text::utf16_lossy(text::units_of(data)),
        values::value_text(data, 2) == text::utf8_lossy(data),
        data.len() >= 1 ==> values::value_text(data, 4) == text::decimal(data[0] as nat),
        data.len() >= 2 ==> values::value_text(data, 6) == text::decimal(short_number(data, 0)),
        data.len() >= 4 ==> values::value_text(data, 8) == text::decimal(
            reader::le32(data, 0) as nat,
        ),
        data.len() >= 8 ==> values::value_text(data, 10) == text::decimal(wide_number(data)),
        data.len() >= 4 ==> values::value_text(data, 13) == if data[0] == 0 && data[1] == 0 && data[2]
            == 0 && data[3] == 0 {
            "false"@
        } else {
            "true"@
        },
        values::value_text(data, 14) == text::hex_dump(data),
        data.len() >= 4 ==> values::value_text(data, 20) == "0x"@ + text::hex(
            reader::le32(data, 0) as nat,
            8,
            false,
        ),
        data.len() >= 8 ==> values::value_text(data, 21) == "0x"@ + text::hex(
            wide_number(data),
            16,
            false,
        ),
{
    if data.len() >= 4 {
        assert(reader::le32(data, 0) == data[0] + 256 * data[1] + 65536 * data[2] + 16777216
            * data[3]);
    }
}

/// GUIDs (15), FILETIMEs (17) and SYSTEMTIMEs (18) have their texts.
pub proof fn law_identifiers_and_times_have_their_texts(data: Seq<u8>)
    ensures
        data.len() >= 16 ==> values::value_text(data, 15) == "{"@ + text::hex(
            reader::le32(data, 0) as nat,
            8,
            true,
        ) + "-"@ + text::hex(short_number(data, 4), 4, true) + "-"@ + text::hex(
            short_number(data, 6),
            4,
            true,
        ) + "-"@ + text::hex(data[8] as nat, 2, true) + text::hex(data[9] as nat, 2, true) + "-"@
            + text::hex(data[10] as nat, 2, true) + text::hex(data[11] as nat, 2, true) + text::hex(
            data[12] as nat,
            2,
            true,
        ) + text::hex(data[13] as nat, 2, true) + "}"@,
        data.len() >= 8 ==> values::value_text(data, 17) == match time::moment_text(
            lnk::set_time(data, 0),
        ) {
            Some(text) => text,
            None => "1601-01-01T00:00:00Z"@,
        },
        data.len() >= 16 ==> values::value_text(data, 18) == text::zero_padded(
            text::decimal(short_number(data, 0)),
            4,
        ) + "-"@ + text::zero_padded(text::decimal(short_number(data, 2)), 2) + "-"@
            + text::zero_padded(text::decimal(short_number(data, 6)), 2) + "T"@ + text::zero_padded(
            text::decimal(short_number(data, 8)),
            2,
        ) + ":"@ + text::zero_padded(text::decimal(short_number(data, 10)), 2) + ":"@
            + text::zero_padded(text::decimal(short_number(data, 12)), 2) + "Z"@,
{
}

/// The least bytes of a value of a type, where it is one of those that have a
/// size.
pub open spec fn least_bytes(vtype: u8) -> int {
    if vtype == 4 {
        1
    } else if vtype == 6 {
        2
    } else if vtype == 8 || vtype == 13 || vtype == 20 {
        4
    } else if vtype == 10 || vtype == 17 || vtype == 21 {
        8
    } else {
        16
    }
}

/// Whether a type has a size.
pub open spec fn has_size(vtype: u8) -> bool {
    ||| vtype == 4
    ||| vtype == 6
    ||| vtype == 8
    ||| vtype == 13
    ||| vtype == 20
    ||| vtype == 10
    ||| vtype == 17
    ||| vtype == 21
    ||| vtype == 15
    ||| vtype == 18
}

/// A value of a type with a size that is too short, and one of any other type
/// but strings (1, 2) and security identifiers (19), is given in hexadecimal.
pub proof fn law_other_values_are_in_hexadecimal(data: Seq<u8>, vtype: u8)
    ensures
        has_size(vtype) && data.len() < least_bytes(vtype) ==> values::value_text(data, vtype)
            == text::hex_dump(data),
        !has_size(vtype) && vtype != 1 && vtype != 2 && vtype != 19 ==> values::value_text(
            data,
            vtype,
        ) == text::hex_dump(data),
{
}

/// A security identifier (19) has its revision, its authority, which has its
/// highest byte first, and its subauthorities, as many as its second byte says.
/// It has no text where it is cut off.
pub proof fn law_security_identifier_has_its_parts(data: Seq<u8>)
    ensures
        data.len() < 8 || data.len() < 8 + 4 * data[1] ==> values::value_text(data, 19) == Seq::<
            char,
        >::empty(),
        data.len() >= 8 && data.len() >= 8 + 4 * data[1] ==> values::value_text(data, 19) == "S-"@
            + text::decimal(data[0] as nat) + "-"@ + text::decimal(
            (data[7] + 256 * (data[6] + 256 * (data[5] + 256 * (data[4] + 256 * (data[3] + 256
                * data[2]))))) as nat,
        ) + "-"@ + values::subauthorities(data, data[1] as nat),
{
}

/// The subauthorities of a security identifier follow each other in four bytes
/// each from the ninth byte on, and have dashes between them.
pub proof fn law_subauthorities_follow_each_other(data: Seq<u8>, n: nat)
    ensures
        values::subauthorities(data, 0) == Seq::<char>::empty(),
        values::subauthorities(data, 1) == text::decimal(reader::le32(data, 8) as nat),
        n >= 1 ==> values::subauthorities(data, n + 1) == values::subauthorities(data, n) + "-"@
            + text::decimal(reader::le32(data, 8 + 4 * n as int) as nat),
{
    reveal_strlit("-");
    assert("-"@ =~= seq!['-']);
    if n >= 1 {
        let before = values::subauthorities(data, n);
        assert(before.push('-') =~= before + "-"@);
    }
}

/// Where a value of a type ends in a stream that it stands in at `pos`.
pub open spec fn stream_end(data: Seq<u8>, pos: int, vtype: u8) -> int {
    if vtype == 1 {
        pos + 2 + 2 * short_number(data, pos)
    } else if vtype == 2 || vtype == 14 {
        pos + 2 + short_number(data, pos)
    } else if vtype == 19 {
        pos + 8 + 4 * data[pos + 1]
    } else if has_size(vtype) {
        pos + least_bytes(vtype)
    } else {
        pos
    }
}

/// A value in a stream has the text of its bytes: those behind a length of two
/// bytes for strings and binary data, as many as the second byte says for a
/// security identifier, and its size for one that has a size. A value of any
/// other type takes no bytes and has no text.
pub proof fn law_stream_values_take_their_bytes(data: Seq<u8>, pos: int, vtype: u8)
    requires
        0 <= pos,
        vtype == 1 || vtype == 2 || vtype == 14 || vtype == 19 ==> pos + 2 <= data.len(),
        stream_end(data, pos, vtype) <= data.len(),
    ensures
        values::value_at(data, pos, vtype).1 == stream_end(data, pos, vtype),
        values::value_at(data, pos, vtype).0 == if vtype == 1 || vtype == 2 || vtype == 14 {
            values::value_text(data.subrange(pos + 2, stream_end(data, pos, vtype)), vtype)
        } else if vtype == 19 || has_size(vtype) {
            values::value_text(data.subrange(pos, stream_end(data, pos, vtype)), vtype)
        } else {
            seq![]
        },
{
}

/// A value in a stream that is cut off has no text, and takes no bytes but those
/// of its length.
pub proof fn law_stream_values_that_are_cut_off(data: Seq<u8>, pos: int, vtype: u8)
    requires
        0 <= pos <= data.len(),
    ensures
        (vtype == 1 || vtype == 2 || vtype == 14) && pos + 2 > data.len() ==> values::value_at(
            data,
            pos,
            vtype,
        ) == (Seq::<char>::empty(), pos),
        (vtype == 1 || vtype == 2 || vtype == 14) && pos + 2 <= data.len() && stream_end(
            data,
            pos,
            vtype,
        ) > data.len() ==> values::value_at(data, pos, vtype) == (Seq::<char>::empty(), pos + 2),
        vtype == 19 && (pos + 2 > data.len() || stream_end(data, pos, vtype) > data.len())
            ==> values::value_at(data, pos, vtype) == (Seq::<char>::empty(), pos),
        has_size(vtype) && stream_end(data, pos, vtype) > data.len() ==> values::value_at(
            data,
            pos,
            vtype,
        ) == (Seq::<char>::empty(), pos),
{
}

} // verus!
