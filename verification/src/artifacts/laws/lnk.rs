//! What a shortcut's event says, in terms of the shortcut's bytes.

use vstd::prelude::*;

use crate::artifacts::lnk;
use crate::artifacts::lnk::LnkParser;
use crate::artifacts::reader;
use crate::artifacts::{ArtifactParser, FileView};
use crate::text;
use crate::timeline::json;
use crate::timeline::time;
use crate::timeline::{ArtifactSource, EventView};

verus! {

/// The 32-bit number at `offset`, 0 where it is cut off.
pub open spec fn number_at(raw: Seq<u8>, offset: int) -> u32 {
    if offset >= 0 && offset + 4 <= raw.len() {
        reader::le32(raw, offset)
    } else {
        0
    }
}

/// Where LinkInfo stands: behind the header of 76 bytes, and behind the
/// LinkTargetIDList where the first flag says that there is one.
pub open spec fn info_at(raw: Seq<u8>) -> int {
    if number_at(raw, 20) & 0x1 == 0 || raw.len() < 78 {
        76
    } else {
        78 + text::le16(raw[76], raw[77])
    }
}

/// Whether LinkInfo stands there: the second flag says so, and it has a size of
/// at least 28 bytes.
pub open spec fn has_info(raw: Seq<u8>) -> bool {
    number_at(raw, 20) & 0x2 != 0 && number_at(raw, info_at(raw)) >= 28
}

/// The local path in LinkInfo: at the offset in its fifth number, where that is
/// not zero and the first of its flags, the third number, is set.
pub open spec fn local_path(raw: Seq<u8>) -> Option<Seq<char>> {
    let info = info_at(raw);
    let offset = number_at(raw, info + 16);
    if has_info(raw) && number_at(raw, info + 8) & 0x1 != 0 && offset != 0 {
        reader::cstr_at(raw, info + offset, 1024)
    } else {
        None
    }
}

/// The network path in LinkInfo: CommonNetworkRelativeLink is at the offset in
/// its sixth number, where that is not zero and the second of its flags is set,
/// and the path is at the offset in the third number of that, if not zero.
pub open spec fn remote_path(raw: Seq<u8>) -> Option<Seq<char>> {
    let info = info_at(raw);
    let link = info + number_at(raw, info + 20);
    let offset = number_at(raw, link + 8);
    if has_info(raw) && number_at(raw, info + 8) & 0x2 != 0 && number_at(raw, info + 20) != 0
        && offset != 0 {
        reader::cstr_at(raw, link + offset, 1024)
    } else {
        None
    }
}

/// Where StringData stands.
pub open spec fn strings_at(raw: Seq<u8>) -> int {
    if has_info(raw) {
        info_at(raw) + number_at(raw, info_at(raw))
    } else {
        info_at(raw)
    }
}

/// Whether the `k`th of the five strings stands: the flags from 0x4 to 0x40 say so.
pub open spec fn has_string(raw: Seq<u8>, k: int) -> bool {
    let flags = number_at(raw, 20);
    ||| k == 0 && flags & 0x4 != 0
    ||| k == 1 && flags & 0x8 != 0
    ||| k == 2 && flags & 0x10 != 0
    ||| k == 3 && flags & 0x20 != 0
    ||| k == 4 && flags & 0x40 != 0
}

/// The bytes of the string at `at`: its number of characters, each of two bytes
/// where the flag 0x80 is set.
pub open spec fn string_len(raw: Seq<u8>, at: int) -> int {
    let count = text::le16(raw[at], raw[at + 1]) as int;
    if number_at(raw, 20) & 0x80 != 0 {
        2 * count
    } else {
        count
    }
}

/// Where the `k`th string would stand: behind those that stand before it.
pub open spec fn string_at(raw: Seq<u8>, k: int) -> int
    decreases k,
{
    if k <= 0 {
        strings_at(raw)
    } else {
        let before = string_at(raw, k - 1);
        if has_string(raw, k - 1) {
            before + 2 + string_len(raw, before)
        } else {
            before
        }
    }
}

/// Whether the strings up to the `k`th lie in the file.
pub open spec fn strings_fit(raw: Seq<u8>, k: int) -> bool
    decreases k + 1,
{
    k < 0 || (strings_fit(raw, k - 1) && (has_string(raw, k) ==> {
        let at = string_at(raw, k);
        at + 2 <= raw.len() && at + 2 + string_len(raw, at) <= raw.len()
    }))
}

/// The `k`th string, where it stands and lies in the file with those before it.
pub open spec fn string_of(raw: Seq<u8>, k: int) -> Option<Seq<char>> {
    let at = string_at(raw, k);
    let bytes = raw.subrange(at + 2, at + 2 + string_len(raw, at));
    if !has_string(raw, k) || !strings_fit(raw, k) {
        None
    } else if number_at(raw, 20) & 0x80 != 0 {
        Some(text::utf16_lossy(text::units_of(bytes)))
    } else {
        Some(text::utf8_lossy(bytes))
    }
}

proof fn lemma_extra_keeps(data: Seq<u8>, offset: int, left: nat, texts: lnk::LinkTexts)
    ensures
        ({
            let after = lnk::extra_data(data, offset, left, texts).1;
            &&& after.local_base_path == texts.local_base_path
            &&& after.network_path == texts.network_path
            &&& after.name == texts.name
            &&& after.relative_path == texts.relative_path
            &&& after.working_dir == texts.working_dir
            &&& after.arguments == texts.arguments
            &&& after.icon_location == texts.icon_location
        }),
    decreases left,
{
    if left > 0 {
        if let Some(size) = reader::u32_at(data, offset) {
            lemma_extra_keeps(
                data,
                offset + size,
                (left - 1) as nat,
                lnk::with_block(data, offset, size, texts),
            );
        }
    }
}

/// The `k`th of the five texts that StringData can give.
pub open spec fn text_of_string(texts: lnk::LinkTexts, k: int) -> Option<Seq<char>> {
    if k == 0 {
        texts.name
    } else if k == 1 {
        texts.relative_path
    } else if k == 2 {
        texts.working_dir
    } else if k == 3 {
        texts.arguments
    } else {
        texts.icon_location
    }
}

proof fn lemma_strings(raw: Seq<u8>, k: int, texts: lnk::LinkTexts)
    requires
        0 <= k <= 5,
        strings_fit(raw, k - 1),
        0 <= strings_at(raw),
    ensures
        ({
            let (_, after) = lnk::string_data(raw, number_at(raw, 20), string_at(raw, k), k, texts);
            &&& after.local_base_path == texts.local_base_path
            &&& after.network_path == texts.network_path
            &&& after.machine_id == texts.machine_id
            &&& after.mac_address == texts.mac_address
            &&& forall|j: int|
                0 <= j < 5 ==> #[trigger] text_of_string(after, j) == if j >= k && string_of(raw, j)
                    is Some {
                    string_of(raw, j)
                } else {
                    text_of_string(texts, j)
                }
        }),
    decreases 5 - k,
{
    if k < 5 {
        lemma_string_at(raw, k);
        let at = string_at(raw, k);
        let flags = number_at(raw, 20);
        if !has_string(raw, k) {
            lemma_strings(raw, k + 1, texts);
        } else if strings_fit(raw, k) {
            let s = string_of(raw, k)->0;
            lemma_strings(raw, k + 1, texts.with_string(k, s));
        } else {
            assert forall|j: int| k <= j < 5 implies !strings_fit(raw, j) by {
                lemma_no_more_fit(raw, k, j);
            }
        }
    }
}

proof fn lemma_string_at(raw: Seq<u8>, k: int)
    requires
        0 <= strings_at(raw),
    ensures
        string_at(raw, k) >= 0,
    decreases k,
{
    if k > 0 {
        lemma_string_at(raw, k - 1);
    }
}

proof fn lemma_no_more_fit(raw: Seq<u8>, k: int, j: int)
    requires
        0 <= k <= j,
        !strings_fit(raw, k),
    ensures
        !strings_fit(raw, j),
    decreases j,
{
    if k < j {
        lemma_no_more_fit(raw, k, j - 1);
    }
}

/// The texts of a shortcut: its paths are those of LinkInfo, and its name,
/// relative path, working directory, arguments and icon are the strings of
/// StringData in this order.
pub proof fn law_texts_stand_in_their_places(raw: Seq<u8>)
    ensures
        ({
            let texts = lnk::link_texts(raw).1;
            &&& texts.local_base_path == local_path(raw)
            &&& texts.network_path == remote_path(raw)
            &&& texts.name == string_of(raw, 0)
            &&& texts.relative_path == string_of(raw, 1)
            &&& texts.working_dir == string_of(raw, 2)
            &&& texts.arguments == string_of(raw, 3)
            &&& texts.icon_location == string_of(raw, 4)
        }),
{
    let flags = number_at(raw, 20);
    let (strings, paths) = lnk::link_info(raw, flags, lnk::after_id_list(raw, flags, 76));
    let (blocks, texts) = lnk::string_data(raw, flags, strings, 0, paths);
    lemma_strings(raw, 0, paths);
    lemma_extra_keeps(raw, blocks, 64, texts);
    assert(text_of_string(texts, 0) == string_of(raw, 0));
    assert(text_of_string(texts, 1) == string_of(raw, 1));
    assert(text_of_string(texts, 2) == string_of(raw, 2));
    assert(text_of_string(texts, 3) == string_of(raw, 3));
    assert(text_of_string(texts, 4) == string_of(raw, 4));
}

/// A shortcut whose LinkInfo gives a local path names it as its event's target,
/// whatever StringData says. One without it names its relative path, one with
/// neither its network path, and only one with none of them has no target.
pub proof fn law_local_path_is_target(raw: Seq<u8>, file: FileView, readings: Seq<time::Moment>)
    requires
        lnk::is_lnk(raw),
    ensures
        ({
            let target = LnkParser.timeline(raw, file, readings)[0].target_path;
            &&& local_path(raw) is Some ==> target == local_path(raw)
            &&& local_path(raw) is None && string_of(raw, 1) is Some ==> target == string_of(raw, 1)
            &&& local_path(raw) is None && string_of(raw, 1) is None && remote_path(raw) is Some
                ==> target == remote_path(raw)
            &&& local_path(raw) is None && string_of(raw, 1) is None && remote_path(raw) is None
                ==> target == Some("(no target)"@)
        }),
{
    law_texts_stand_in_their_places(raw);
}

/// The description of a shortcut is its target, and behind it its arguments if
/// they are more than white space.
pub proof fn law_description_names_target_and_arguments(
    raw: Seq<u8>,
    file: FileView,
    readings: Seq<time::Moment>,
)
    requires
        lnk::is_lnk(raw),
    ensures
        ({
            let event = LnkParser.timeline(raw, file, readings)[0];
            let start = "Shortcut targets "@ + event.target_path->0;
            &&& event.target_path is Some
            &&& event.event_type == "lnk_target_referenced"@
            &&& event.source == ArtifactSource::Lnk
            &&& event.artifact_path == file.path
            &&& string_of(raw, 3) is None ==> event.description == start
            &&& string_of(raw, 3) matches Some(arguments) ==> {
                &&& (exists|i: int|
                    0 <= i < arguments.len() && !text::is_white_space(#[trigger] arguments[i]))
                    ==> event.description == start + " with arguments: "@ + arguments
                &&& (forall|i: int|
                    0 <= i < arguments.len() ==> text::is_white_space(#[trigger] arguments[i]))
                    ==> event.description == start
            }
        }),
{
    law_texts_stand_in_their_places(raw);
}

/// The moment of the FILETIME at `offset` of the header, where it is set.
pub open spec fn set_time(raw: Seq<u8>, offset: int) -> Option<time::Moment> {
    if offset + 8 <= raw.len() {
        time::filetime_moment(
            (reader::le32(raw, offset) + 0x1_0000_0000 * reader::le32(raw, offset + 4)) as u64,
        )
    } else {
        None
    }
}

/// The event of a shortcut has the time of the last write at 44, else that of
/// the creation at 28, else that of the file, else the present.
pub proof fn law_write_time_comes_first(raw: Seq<u8>, file: FileView, readings: Seq<time::Moment>)
    requires
        lnk::is_lnk(raw),
    ensures
        ({
            let moment = LnkParser.timeline(raw, file, readings)[0].timestamp;
            &&& set_time(raw, 44) is Some ==> moment == set_time(raw, 44)->0
            &&& set_time(raw, 44) is None && set_time(raw, 28) is Some ==> moment == set_time(
                raw,
                28,
            )->0
            &&& set_time(raw, 44) is None && set_time(raw, 28) is None && file.modified is Some
                ==> moment == file.modified->0
            &&& set_time(raw, 44) is None && set_time(raw, 28) is None && file.modified is None
                ==> moment == readings[0] && LnkParser.presents(raw, file) == 1
            &&& set_time(raw, 44) is Some || set_time(raw, 28) is Some || file.modified is Some
                ==> LnkParser.presents(raw, file) == 0
        }),
{
}

/// Whether an event has a text under a key, just where there is one.
pub open spec fn has_text(event: EventView, key: Seq<char>, text: Option<Seq<char>>) -> bool {
    match text {
        Some(text) => event.extra.contains_key(key) && event.extra[key] == json::Json::Text(text),
        None => !event.extra.contains_key(key),
    }
}

proof fn lemma_keys_differ()
    ensures
        "show_command"@ != "link_flags"@,
        "show_command"@ != "target_created"@,
        "show_command"@ != "target_accessed"@,
        "show_command"@ != "arguments"@,
        "show_command"@ != "working_dir"@,
        "show_command"@ != "icon_location"@,
        "show_command"@ != "builder_machine_id"@,
        "show_command"@ != "builder_mac_address"@,
        "show_command"@ != "overlay_bytes"@,
        "link_flags"@ != "target_created"@,
        "link_flags"@ != "target_accessed"@,
        "link_flags"@ != "arguments"@,
        "link_flags"@ != "working_dir"@,
        "link_flags"@ != "icon_location"@,
        "link_flags"@ != "builder_machine_id"@,
        "link_flags"@ != "builder_mac_address"@,
        "link_flags"@ != "overlay_bytes"@,
        "target_created"@ != "target_accessed"@,
        "target_created"@ != "arguments"@,
        "target_created"@ != "working_dir"@,
        "target_created"@ != "icon_location"@,
        "target_created"@ != "builder_machine_id"@,
        "target_created"@ != "builder_mac_address"@,
        "target_created"@ != "overlay_bytes"@,
        "target_accessed"@ != "arguments"@,
        "target_accessed"@ != "working_dir"@,
        "target_accessed"@ != "icon_location"@,
        "target_accessed"@ != "builder_machine_id"@,
        "target_accessed"@ != "builder_mac_address"@,
        "target_accessed"@ != "overlay_bytes"@,
        "arguments"@ != "working_dir"@,
        "arguments"@ != "icon_location"@,
        "arguments"@ != "builder_machine_id"@,
        "arguments"@ != "builder_mac_address"@,
        "arguments"@ != "overlay_bytes"@,
        "working_dir"@ != "icon_location"@,
        "working_dir"@ != "builder_machine_id"@,
        "working_dir"@ != "builder_mac_address"@,
        "working_dir"@ != "overlay_bytes"@,
        "icon_location"@ != "builder_machine_id"@,
        "icon_location"@ != "builder_mac_address"@,
        "icon_location"@ != "overlay_bytes"@,
        "builder_machine_id"@ != "builder_mac_address"@,
        "builder_machine_id"@ != "overlay_bytes"@,
        "builder_mac_address"@ != "overlay_bytes"@,
{
    reveal_strlit("show_command");
    reveal_strlit("link_flags");
    reveal_strlit("target_created");
    reveal_strlit("target_accessed");
    reveal_strlit("arguments");
    reveal_strlit("working_dir");
    reveal_strlit("icon_location");
    reveal_strlit("builder_machine_id");
    reveal_strlit("builder_mac_address");
    reveal_strlit("overlay_bytes");
    assert("show_command"@[0] == 's');
    assert("link_flags"@[0] == 'l');
    assert("target_created"@[0] == 't' && "target_created"@[7] == 'c');
    assert("target_accessed"@[0] == 't' && "target_accessed"@[7] == 'a');
    assert("arguments"@[0] == 'a');
    assert("working_dir"@[0] == 'w');
    assert("icon_location"@[0] == 'i');
    assert("builder_machine_id"@[0] == 'b');
    assert("builder_machine_id"@.len() == 18);
    assert("builder_mac_address"@[0] == 'b');
    assert("builder_mac_address"@.len() == 19);
    assert("overlay_bytes"@[0] == 'o');
}

/// The extra fields of a shortcut's event hold what their names say: the show
/// command at 60, the flags at 20, the times at 28 and 36, the strings, the
/// tracker block's names, and the number of bytes behind the last structure
/// where these are more than 16.
pub proof fn law_extra_fields_hold_what_is_read(
    raw: Seq<u8>,
    file: FileView,
    readings: Seq<time::Moment>,
)
    requires
        lnk::is_lnk(raw),
    ensures
        ({
            let event = LnkParser.timeline(raw, file, readings)[0];
            let texts = lnk::link_texts(raw).1;
            let behind = raw.len() - lnk::link_texts(raw).0;
            &&& event.extra.contains_key("show_command"@)
            &&& event.extra["show_command"@] == json::Json::Number(number_at(raw, 60) as int)
            &&& has_text(
                event,
                "link_flags"@,
                Some("0x"@ + text::hex(number_at(raw, 20) as nat, 8, false)),
            )
            &&& has_text(event, "target_created"@, time::moment_text(set_time(raw, 28)))
            &&& has_text(event, "target_accessed"@, time::moment_text(set_time(raw, 36)))
            &&& has_text(event, "arguments"@, string_of(raw, 3))
            &&& has_text(event, "working_dir"@, string_of(raw, 2))
            &&& has_text(event, "icon_location"@, string_of(raw, 4))
            &&& has_text(event, "builder_machine_id"@, texts.machine_id)
            &&& has_text(event, "builder_mac_address"@, texts.mac_address)
            &&& event.extra.contains_key("overlay_bytes"@) == (behind > 16)
            &&& behind > 16 ==> event.extra["overlay_bytes"@] == json::Json::Number(behind)
        }),
{
    law_texts_stand_in_their_places(raw);
    lemma_keys_differ();
}

// ---------------------------------------------------------------------
// The tracker block
// ---------------------------------------------------------------------

/// Where StringData ends, if all its strings lie in the file.
pub open spec fn blocks_at(raw: Seq<u8>) -> int {
    string_at(raw, 5)
}

proof fn lemma_strings_end(raw: Seq<u8>, k: int, texts: lnk::LinkTexts)
    requires
        0 <= k <= 5,
        strings_fit(raw, 4),
        strings_fit(raw, k - 1),
        0 <= strings_at(raw),
    ensures
        lnk::string_data(raw, number_at(raw, 20), string_at(raw, k), k, texts).0 == string_at(raw, 5),
    decreases 5 - k,
{
    if k < 5 {
        lemma_string_at(raw, k);
        if !strings_fit(raw, k) {
            lemma_no_more_fit(raw, k, 4);
        }
        if has_string(raw, k) {
            let s = string_of(raw, k)->0;
            lemma_strings_end(raw, k + 1, texts.with_string(k, s));
        } else {
            lemma_strings_end(raw, k + 1, texts);
        }
    }
}

/// Where the `i`th block behind `start` stands, if those before it are blocks.
pub open spec fn block_at(raw: Seq<u8>, start: int, i: int) -> int
    decreases i,
{
    if i <= 0 {
        start
    } else {
        block_at(raw, start, i - 1) + number_at(raw, block_at(raw, start, i - 1))
    }
}

/// Whether a block stands at `at`: a size of at least four bytes and one of the
/// thirteen signatures.
pub open spec fn is_block(raw: Seq<u8>, at: int) -> bool {
    number_at(raw, at) >= 4 && 0xA000_0000 <= number_at(raw, at + 4) <= 0xA000_000C
}

/// Whether a tracker block of at least 96 bytes stands at `at`.
pub open spec fn is_tracker(raw: Seq<u8>, at: int) -> bool {
    number_at(raw, at) >= 0x60 && number_at(raw, at + 4) == 0xA000_0003
}

/// The machine that the last tracker block among the first `n` blocks names: in
/// sixteen bytes at 16, up to a zero.
pub open spec fn machine_among(raw: Seq<u8>, start: int, n: int) -> Option<Seq<char>>
    decreases n,
{
    let at = block_at(raw, start, n - 1);
    if n <= 0 {
        None
    } else if is_tracker(raw, at) && at + 32 <= raw.len() {
        Some(text::utf8_lossy(reader::before_nul(raw.subrange(at + 16, at + 32))))
    } else {
        machine_among(raw, start, n - 1)
    }
}

/// The MAC address that the last tracker block among the first `n` blocks names:
/// in the sixteen bytes at 48.
pub open spec fn mac_among(raw: Seq<u8>, start: int, n: int) -> Option<Seq<char>>
    decreases n,
{
    let at = block_at(raw, start, n - 1);
    if n <= 0 {
        None
    } else if is_tracker(raw, at) && at + 64 <= raw.len() {
        lnk::uuid_mac(raw.subrange(at + 48, at + 64))
    } else {
        mac_among(raw, start, n - 1)
    }
}

/// Where a shortcut ends that has `n` blocks: behind them, and behind the four
/// bytes of the terminal block, a size below four.
pub open spec fn end_behind(raw: Seq<u8>, start: int, n: int) -> int {
    let at = block_at(raw, start, n);
    if n < 64 && at + 4 <= raw.len() && number_at(raw, at) < 4 {
        at + 4
    } else {
        at
    }
}

proof fn lemma_blocks(raw: Seq<u8>, start: int, i: int, n: int, texts: lnk::LinkTexts)
    requires
        0 <= start,
        0 <= i <= n <= 64,
        forall|j: int| 0 <= j < n ==> is_block(raw, #[trigger] block_at(raw, start, j)),
        n == 64 || !is_block(raw, block_at(raw, start, n)),
        block_at(raw, start, i) >= 0,
        texts.machine_id == machine_among(raw, start, i),
        texts.mac_address == mac_among(raw, start, i),
    ensures
        ({
            let (end, after) = lnk::extra_data(
                raw,
                block_at(raw, start, i),
                (64 - i) as nat,
                texts,
            );
            &&& end == end_behind(raw, start, n)
            &&& after.machine_id == machine_among(raw, start, n)
            &&& after.mac_address == mac_among(raw, start, n)
        }),
    decreases n - i,
{
    let at = block_at(raw, start, i);
    if i < n {
        assert(is_block(raw, block_at(raw, start, i)));
        assert(block_at(raw, start, i + 1) == at + number_at(raw, at));
        let next = lnk::with_block(raw, at, number_at(raw, at), texts);
        lemma_blocks(raw, start, i + 1, n, next);
    }
}

/// What a shortcut with `n` blocks says of the machine that built it, and where
/// it ends. The blocks end at the first thing that is none, at most 64 count.
pub proof fn law_tracker_block_names_builder(raw: Seq<u8>, n: int)
    requires
        strings_fit(raw, 4),
        0 <= n <= 64,
        forall|j: int| 0 <= j < n ==> is_block(raw, #[trigger] block_at(raw, blocks_at(raw), j)),
        n == 64 || !is_block(raw, block_at(raw, blocks_at(raw), n)),
    ensures
        lnk::link_texts(raw).1.machine_id == machine_among(raw, blocks_at(raw), n),
        lnk::link_texts(raw).1.mac_address == mac_among(raw, blocks_at(raw), n),
        lnk::link_texts(raw).0 == end_behind(raw, blocks_at(raw), n),
{
    let flags = number_at(raw, 20);
    let (strings, paths) = lnk::link_info(raw, flags, lnk::after_id_list(raw, flags, 76));
    let (blocks, texts) = lnk::string_data(raw, flags, strings, 0, paths);
    lemma_string_at(raw, 5);
    lemma_strings_end(raw, 0, paths);
    lemma_strings(raw, 0, paths);
    lemma_blocks(raw, blocks_at(raw), 0, n, texts);
}

/// A UUID gives a MAC address just where its version is 1 and its node is set:
/// two digits for each of the six bytes of the node, with colons between them.
pub proof fn law_mac_address_is_the_node(guid: Seq<u8>)
    requires
        guid.len() == 16,
    ensures
        lnk::uuid_mac(guid) is Some <==> 16 <= guid[7] < 32 && exists|i: int|
            10 <= i < 16 && #[trigger] guid[i] != 0,
        lnk::uuid_mac(guid) matches Some(mac) ==> mac == text::hex(guid[10] as nat, 2, false) + ":"@
            + text::hex(guid[11] as nat, 2, false) + ":"@ + text::hex(guid[12] as nat, 2, false)
            + ":"@ + text::hex(guid[13] as nat, 2, false) + ":"@ + text::hex(
            guid[14] as nat,
            2,
            false,
        ) + ":"@ + text::hex(guid[15] as nat, 2, false),
{
    reveal_strlit(":");
    assert(":"@ =~= seq![':']);
    let node = guid.subrange(10, 16);
    let six = node;
    let five = six.drop_last();
    let four = five.drop_last();
    let three = four.drop_last();
    let two = three.drop_last();
    let one = two.drop_last();
    assert(one.len() == 1 && one[0] == guid[10]);
    assert(two.last() == guid[11] && three.last() == guid[12] && four.last() == guid[13]);
    assert(five.last() == guid[14] && six.last() == guid[15]);
    let h = |i: int| text::hex(guid[i] as nat, 2, false);
    assert(lnk::colon_hex(one) == h(10));
    assert(lnk::colon_hex(two) =~= h(10) + ":"@ + h(11));
    assert(lnk::colon_hex(three) =~= h(10) + ":"@ + h(11) + ":"@ + h(12));
    assert(lnk::colon_hex(four) =~= h(10) + ":"@ + h(11) + ":"@ + h(12) + ":"@ + h(13));
    assert(lnk::colon_hex(five) =~= h(10) + ":"@ + h(11) + ":"@ + h(12) + ":"@ + h(13) + ":"@ + h(
        14,
    ));
    assert(lnk::colon_hex(six) =~= h(10) + ":"@ + h(11) + ":"@ + h(12) + ":"@ + h(13) + ":"@ + h(14)
        + ":"@ + h(15));
    if 16 <= guid[7] < 32 && exists|i: int| 10 <= i < 16 && #[trigger] guid[i] != 0 {
        let i = choose|i: int| 10 <= i < 16 && #[trigger] guid[i] != 0;
        assert(i == 10 || i == 11 || i == 12 || i == 13 || i == 14 || i == 15);
    }
}

/// Where reading stops in the `k`th string, which is cut off: behind its number
/// of characters where that lies in the file.
pub open spec fn cut_at(raw: Seq<u8>, k: int) -> int {
    if string_at(raw, k) + 2 <= raw.len() {
        string_at(raw, k) + 2
    } else {
        string_at(raw, k)
    }
}

proof fn lemma_strings_cut(raw: Seq<u8>, i: int, k: int, texts: lnk::LinkTexts)
    requires
        0 <= i <= k < 5,
        strings_fit(raw, k - 1),
        strings_fit(raw, i - 1),
        !strings_fit(raw, k),
        0 <= strings_at(raw),
    ensures
        lnk::string_data(raw, number_at(raw, 20), string_at(raw, i), i, texts).0 == cut_at(raw, k),
    decreases k - i,
{
    lemma_string_at(raw, i);
    if i < k {
        if !strings_fit(raw, i) {
            lemma_no_more_fit(raw, i, k - 1);
        }
        if has_string(raw, i) {
            let s = string_of(raw, i)->0;
            lemma_strings_cut(raw, i + 1, k, texts.with_string(i, s));
        } else {
            lemma_strings_cut(raw, i + 1, k, texts);
        }
    }
}

/// In a shortcut whose `k`th string is the first that is cut off, the blocks are
/// looked for behind its number of characters, where that lies in the file, else
/// where it would start.
pub proof fn law_blocks_start_at_a_string_that_is_cut_off(raw: Seq<u8>, k: int, n: int)
    requires
        0 <= k < 5,
        strings_fit(raw, k - 1),
        !strings_fit(raw, k),
        0 <= n <= 64,
        forall|j: int| 0 <= j < n ==> is_block(raw, #[trigger] block_at(raw, cut_at(raw, k), j)),
        n == 64 || !is_block(raw, block_at(raw, cut_at(raw, k), n)),
    ensures
        lnk::link_texts(raw).1.machine_id == machine_among(raw, cut_at(raw, k), n),
        lnk::link_texts(raw).1.mac_address == mac_among(raw, cut_at(raw, k), n),
        lnk::link_texts(raw).0 == end_behind(raw, cut_at(raw, k), n),
{
    let flags = number_at(raw, 20);
    let (strings, paths) = lnk::link_info(raw, flags, lnk::after_id_list(raw, flags, 76));
    let (blocks, texts) = lnk::string_data(raw, flags, strings, 0, paths);
    lemma_string_at(raw, k);
    lemma_strings_cut(raw, 0, k, paths);
    lemma_strings(raw, 0, paths);
    lemma_blocks(raw, cut_at(raw, k), 0, n, texts);
}

} // verus!
