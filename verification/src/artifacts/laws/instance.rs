//! What a template instance says, in terms of its bytes.

use vstd::prelude::*;
use vstd::utf8::*;

use crate::artifacts::evtx::instance;
use crate::artifacts::evtx::template;
use crate::artifacts::evtx::values;
use crate::artifacts::reader;
use crate::text;

verus! {

/// Where the values of the instance at `pos` start: behind a byte, the number of
/// the template, its offset, and its definition where that stands right there.
pub open spec fn count_at(data: Seq<u8>, chunk: Seq<u8>, base: int, pos: int) -> int {
    let template = reader::le32(data, pos + 5) as int;
    if template == base + pos + 9 && template + 24 <= chunk.len() {
        pos + 9 + 24 + reader::le32(chunk, template + 20)
    } else {
        pos + 9
    }
}

/// The sizes of the first `n` values, in the first two bytes of each descriptor
/// of four, behind the number of values at `at`.
pub open spec fn sizes(data: Seq<u8>, at: int, n: int) -> int
    decreases n,
{
    if n <= 0 {
        0
    } else {
        sizes(data, at, n - 1) + data[at + 4 * n] + 256 * data[at + 4 * n + 1]
    }
}

/// Whether a complete instance stands at `pos`.
pub open spec fn is_instance(data: Seq<u8>, chunk: Seq<u8>, base: int, pos: int) -> bool {
    let at = count_at(data, chunk, base, pos);
    let n = reader::le32(data, at) as int;
    &&& pos + 9 <= data.len()
    &&& at + 4 <= data.len()
    &&& n <= 512
    &&& at + 4 + 4 * n + sizes(data, at, n) <= data.len()
}

proof fn lemma_sizes(data: Seq<u8>, at: int, n: int, all: int)
    requires
        0 <= n <= all,
    ensures
        sizes(data, at, n) == instance::size_of_first(
            instance::descriptors_at(data, at + 4, all),
            n,
        ),
        sizes(data, at, n) >= 0,
    decreases n,
{
    if n > 0 {
        lemma_sizes(data, at, n - 1, all);
        let d = instance::descriptors_at(data, at + 4, all)[n - 1];
        assert(d.size == data[at + 4 * n] + 256 * data[at + 4 * n + 1]);
    }
}

/// An instance says where its template is, and has its values one behind the
/// other behind their descriptors: the size, the type and the flags of each.
pub proof fn law_instance_has_its_layout(data: Seq<u8>, chunk: Seq<u8>, base: int, pos: int, i: int)
    requires
        0 <= pos,
        0 <= base,
    ensures
        instance::instance_at(data, chunk, base, pos).0 is Some <==> is_instance(
            data,
            chunk,
            base,
            pos,
        ),
        is_instance(data, chunk, base, pos) ==> {
            let (found, end) = instance::instance_at(data, chunk, base, pos);
            let at = count_at(data, chunk, base, pos);
            let n = reader::le32(data, at) as int;
            &&& found->0.template == reader::le32(data, pos + 5)
            &&& found->0.descriptors.len() == n
            &&& end == at + 4 + 4 * n + sizes(data, at, n)
            &&& 0 <= i < n ==> {
                let d = found->0.descriptors[i];
                let start = at + 4 + 4 * n + sizes(data, at, i);
                let size = data[at + 4 + 4 * i] + 256 * data[at + 5 + 4 * i];
                &&& d.size == size
                &&& d.vtype == data[at + 6 + 4 * i]
                &&& d.flags == data[at + 7 + 4 * i]
                &&& instance::value_bytes(data, found->0, i) == data.subrange(start, start + size)
            }
        },
{
    let at = count_at(data, chunk, base, pos);
    let n = reader::le32(data, at) as int;
    lemma_sizes(data, at, n, n);
    if 0 <= i < n {
        lemma_sizes(data, at, i, n);
    }
}

/// A value is set where the highest bit of its flags is not, and it has bytes.
pub proof fn law_set_values(d: instance::Descriptor)
    ensures
        d.is_set() <==> d.flags < 128 && d.size > 0,
{
    let flags = d.flags;
    assert(flags & 0x80 == 0 <==> flags < 128) by (bit_vector);
}

/// The usual names of values, by place.
pub open spec fn usual_names() -> Seq<Seq<char>> {
    seq![
        "Provider"@,
        "ProviderGuid"@,
        "Qualifiers"@,
        "EventID"@,
        "Version"@,
        "Level"@,
        "Task"@,
        "Opcode"@,
        "Keywords"@,
        "TimeCreated"@,
        "EventRecordID"@,
        "ActivityID"@,
        "RelatedActivityID"@,
        "ProcessID"@,
        "ThreadID"@,
        "Channel"@,
        "Computer"@,
        "UserID"@,
    ]
}

/// A value has the name that its template has for its place, and none where the
/// template has none. Only where there is no template does it have the usual
/// name of its place, and in a nested instance not even then.
pub proof fn law_names_come_from_the_template(chunk: Seq<u8>, offset: int, place: int)
    requires
        0 <= place < 512,
    ensures
        template::template_at(chunk, offset) matches Some(t) ==> {
            &&& t.field_map.contains_key(place as u16) ==> instance::value_name(
                chunk,
                offset,
                place,
            ) == Some(t.field_map[place as u16])
            &&& !t.field_map.contains_key(place as u16) ==> instance::value_name(
                chunk,
                offset,
                place,
            ) is None
            &&& instance::nested_name(chunk, offset, place) == instance::value_name(
                chunk,
                offset,
                place,
            )
        },
        template::template_at(chunk, offset) is None ==> {
            &&& place < 18 ==> instance::value_name(chunk, offset, place) == Some(
                usual_names()[place],
            )
            &&& place >= 18 ==> instance::value_name(chunk, offset, place) is None
            &&& instance::nested_name(chunk, offset, place) is None
        },
{
    let names = usual_names();
    assert(names[0] == "Provider"@ && names[1] == "ProviderGuid"@ && names[2] == "Qualifiers"@);
    assert(names[3] == "EventID"@ && names[4] == "Version"@ && names[5] == "Level"@);
    assert(names[6] == "Task"@ && names[7] == "Opcode"@ && names[8] == "Keywords"@);
    assert(names[9] == "TimeCreated"@ && names[10] == "EventRecordID"@);
    assert(names[11] == "ActivityID"@ && names[12] == "RelatedActivityID"@);
    assert(names[13] == "ProcessID"@ && names[14] == "ThreadID"@ && names[15] == "Channel"@);
    assert(names[16] == "Computer"@ && names[17] == "UserID"@);
}

/// The text of a value of an instance.
pub open spec fn text_at(data: Seq<u8>, found: instance::InstanceView, i: int) -> Seq<char> {
    values::value_text(instance::value_bytes(data, found, i), found.descriptors[i].vtype)
}

/// Whether a value of an instance gives a field a value: it is set, is no nested
/// BinXML, has a text, and a name of at most 64 bytes.
pub open spec fn gives(data: Seq<u8>, chunk: Seq<u8>, found: instance::InstanceView, i: int, key: Seq<char>) -> bool {
    &&& found.descriptors[i].is_set()
    &&& found.descriptors[i].vtype != 0x21
    &&& instance::value_name(chunk, found.template, i) == Some(key)
    &&& encode_utf8(key).len() <= 64
    &&& text_at(data, found, i).len() > 0
}

/// The place of the last of the first `n` values that gives a field a value, -1
/// where none does.
pub open spec fn last_giving(
    data: Seq<u8>,
    chunk: Seq<u8>,
    found: instance::InstanceView,
    n: int,
    key: Seq<char>,
) -> int
    decreases n,
{
    if n <= 0 {
        -1
    } else if gives(data, chunk, found, n - 1, key) {
        n - 1
    } else {
        last_giving(data, chunk, found, n - 1, key)
    }
}

proof fn lemma_values(
    data: Seq<u8>,
    chunk: Seq<u8>,
    base: int,
    found: instance::InstanceView,
    n: int,
    fields: Map<Seq<char>, Seq<char>>,
    key: Seq<char>,
)
    requires
        0 <= n <= found.descriptors.len(),
        forall|i: int|
            0 <= i < n && (#[trigger] found.descriptors[i]).is_set() ==> found.descriptors[i].vtype
                != 0x21,
    ensures
        ({
            let after = instance::with_values(data, chunk, base, found, n, fields);
            let last = last_giving(data, chunk, found, n, key);
            &&& last >= 0 ==> after.contains_key(key) && after[key] == text::clipped(
                text_at(data, found, last),
                4096,
            )
            &&& last < 0 ==> after.contains_key(key) == fields.contains_key(key) && (
            fields.contains_key(key) ==> after[key] == fields[key])
            &&& last < n
        }),
    decreases n,
{
    if n > 0 {
        lemma_values(data, chunk, base, found, n - 1, fields, key);
        let d = found.descriptors[n - 1];
        assert(d.is_set() ==> found.descriptors[n - 1].vtype != 0x21);
    }
}

/// An instance without nested BinXML gives a field the text of the last of its
/// values that has the field's name, cut to 4096 characters. A field that no
/// value gives keeps what it had; one that had nothing gets what stands in the
/// template, if anything does.
pub proof fn law_instance_gives_its_values(
    data: Seq<u8>,
    chunk: Seq<u8>,
    base: int,
    found: instance::InstanceView,
    fields: Map<Seq<char>, Seq<char>>,
    key: Seq<char>,
)
    requires
        forall|i: int|
            0 <= i < found.descriptors.len() && (#[trigger] found.descriptors[i]).is_set()
                ==> found.descriptors[i].vtype != 0x21,
    ensures
        ({
            let after = instance::with_instance(data, chunk, base, found, fields);
            let last = last_giving(data, chunk, found, found.descriptors.len() as int, key);
            let fixed = template::template_at(chunk, found.template);
            &&& last >= 0 ==> after.contains_key(key) && after[key] == text::clipped(
                text_at(data, found, last),
                4096,
            )
            &&& last < 0 && fields.contains_key(key) ==> after.contains_key(key) && after[key]
                == fields[key]
            &&& last < 0 && !fields.contains_key(key) ==> {
                let is_fixed = fixed is Some && fixed->0.literal_fields.contains_key(key);
                &&& after.contains_key(key) == is_fixed
                &&& is_fixed ==> after[key] == text::clipped(fixed->0.literal_fields[key], 4096)
            }
        }),
{
    lemma_values(data, chunk, base, found, found.descriptors.len() as int, fields, key);
}

/// Where the instance in a nested value stands: behind its token, 12, and behind
/// the four bytes of a fragment's start where these stand first.
pub open spec fn nested_at(data: Seq<u8>) -> Option<int> {
    if data.len() >= 5 && data[0] == 0x0F && data[4] == 0x0C {
        Some(5)
    } else if data.len() >= 1 && data[0] == 0x0C {
        Some(1)
    } else {
        None
    }
}

/// Whether a value of a nested instance gives a field a value.
pub open spec fn nested_gives(data: Seq<u8>, chunk: Seq<u8>, found: instance::InstanceView, i: int, key: Seq<char>) -> bool {
    &&& found.descriptors[i].is_set()
    &&& instance::nested_name(chunk, found.template, i) == Some(key)
    &&& encode_utf8(key).len() <= 64
    &&& text_at(data, found, i).len() > 0
}

pub open spec fn last_nested(
    data: Seq<u8>,
    chunk: Seq<u8>,
    found: instance::InstanceView,
    n: int,
    key: Seq<char>,
) -> int
    decreases n,
{
    if n <= 0 {
        -1
    } else if nested_gives(data, chunk, found, n - 1, key) {
        n - 1
    } else {
        last_nested(data, chunk, found, n - 1, key)
    }
}

proof fn lemma_nested_values(
    data: Seq<u8>,
    chunk: Seq<u8>,
    found: instance::InstanceView,
    n: int,
    fields: Map<Seq<char>, Seq<char>>,
    key: Seq<char>,
)
    requires
        0 <= n <= found.descriptors.len(),
    ensures
        ({
            let after = instance::with_nested_values(data, chunk, found, n, fields);
            let last = last_nested(data, chunk, found, n, key);
            &&& last >= 0 ==> after.contains_key(key) && after[key] == text::clipped(
                text_at(data, found, last),
                4096,
            )
            &&& last < 0 ==> after.contains_key(key) == fields.contains_key(key) && (
            fields.contains_key(key) ==> after[key] == fields[key])
            &&& last < n
        }),
    decreases n,
{
    if n > 0 {
        lemma_nested_values(data, chunk, found, n - 1, fields, key);
    }
}

/// A nested instance gives a field the text of the last of its values that has
/// the field's name. What is no complete instance gives nothing.
pub proof fn law_nested_instance_gives_its_values(
    data: Seq<u8>,
    chunk: Seq<u8>,
    base: int,
    fields: Map<Seq<char>, Seq<char>>,
    key: Seq<char>,
)
    requires
        0 <= base,
    ensures
        ({
            let after = instance::with_nested(data, chunk, base, fields);
            let at = nested_at(data);
            let found = instance::instance_at(data, chunk, base, at->0).0;
            &&& at is None || !is_instance(data, chunk, base, at->0) ==> after == fields
            &&& at is Some && is_instance(data, chunk, base, at->0) ==> {
                let last = last_nested(
                    data,
                    chunk,
                    found->0,
                    found->0.descriptors.len() as int,
                    key,
                );
                &&& last >= 0 ==> after.contains_key(key) && after[key] == text::clipped(
                    text_at(data, found->0, last),
                    4096,
                )
                &&& last < 0 ==> after.contains_key(key) == fields.contains_key(key) && (
                fields.contains_key(key) ==> after[key] == fields[key])
            }
        }),
{
    if let Some(at) = nested_at(data) {
        law_instance_has_its_layout(data, chunk, base, at, 0);
        if let Some(found) = instance::instance_at(data, chunk, base, at).0 {
            lemma_nested_values(
                data,
                chunk,
                found,
                found.descriptors.len() as int,
                fields,
                key,
            );
        }
    }
}

/// A value that is BinXML itself, of type 33, is read as a nested instance that
/// starts where the value does, after the values before it.
pub proof fn law_nested_values_are_read_in_place(
    data: Seq<u8>,
    chunk: Seq<u8>,
    base: int,
    found: instance::InstanceView,
    n: int,
    fields: Map<Seq<char>, Seq<char>>,
)
    requires
        0 <= n < found.descriptors.len(),
        found.descriptors[n].is_set(),
        found.descriptors[n].vtype == 33,
    ensures
        instance::with_values(data, chunk, base, found, n + 1, fields) == instance::with_nested(
            instance::value_bytes(data, found, n),
            chunk,
            base + found.values_at + instance::size_of_first(found.descriptors, n),
            instance::with_values(data, chunk, base, found, n, fields),
        ),
{
}

/// Behind an instance that is cut off, reading goes on where that is found out:
/// behind the last of its numbers that is complete, behind a number of values
/// above 512, at the end of the data where the descriptors are cut off, and
/// behind these where the values are.
pub proof fn law_broken_instances_end_where_they_break(
    data: Seq<u8>,
    chunk: Seq<u8>,
    base: int,
    pos: int,
)
    requires
        0 <= pos,
        0 <= base,
        !is_instance(data, chunk, base, pos),
    ensures
        instance::instance_at(data, chunk, base, pos).0 is None,
        ({
            let end = instance::instance_at(data, chunk, base, pos).1;
            let at = count_at(data, chunk, base, pos);
            let n = reader::le32(data, at) as int;
            &&& data.len() <= pos ==> end == pos
            &&& pos < data.len() < pos + 5 ==> end == pos + 1
            &&& pos + 5 <= data.len() < pos + 9 ==> end == pos + 5
            &&& pos + 9 <= data.len() < at ==> end == pos + 9
            &&& pos + 9 <= data.len() && at <= data.len() < at + 4 ==> end == at
            &&& pos + 9 <= data.len() && at + 4 <= data.len() && n > 512 ==> end == at + 4
            &&& pos + 9 <= data.len() && at + 4 <= data.len() < at + 4 + 4 * n && n <= 512 ==> end
                == data.len()
            &&& pos + 9 <= data.len() && at + 4 + 4 * n <= data.len() && n <= 512 ==> end == at + 4
                + 4 * n
        }),
{
    law_instance_has_its_layout(data, chunk, base, pos, 0);
    let at = count_at(data, chunk, base, pos);
    let n = reader::le32(data, at) as int;
    lemma_sizes(data, at, n, n);
}

/// The texts that stand in a template fill what its values leave open, and
/// change nothing else.
pub proof fn law_fixed_texts_fill_what_is_open(
    data: Seq<u8>,
    chunk: Seq<u8>,
    base: int,
    found: instance::InstanceView,
    fields: Map<Seq<char>, Seq<char>>,
    key: Seq<char>,
)
    ensures
        ({
            let n = found.descriptors.len() as int;
            let given = instance::with_values(data, chunk, base, found, n, fields);
            let after = instance::with_instance(data, chunk, base, found, fields);
            let fixed = template::template_at(chunk, found.template);
            let is_fixed = fixed is Some && fixed->0.literal_fields.contains_key(key);
            &&& after.contains_key(key) == (given.contains_key(key) || is_fixed)
            &&& given.contains_key(key) ==> after[key] == given[key]
            &&& !given.contains_key(key) && is_fixed ==> after[key] == text::clipped(
                fixed->0.literal_fields[key],
                4096,
            )
        }),
{
}

/// A value that is no BinXML gives its field, if it has one, its text, and a
/// value that is not set gives nothing.
pub proof fn law_each_value_gives_one_field(
    data: Seq<u8>,
    chunk: Seq<u8>,
    base: int,
    found: instance::InstanceView,
    n: int,
    fields: Map<Seq<char>, Seq<char>>,
    key: Seq<char>,
)
    requires
        0 <= n < found.descriptors.len(),
    ensures
        ({
            let before = instance::with_values(data, chunk, base, found, n, fields);
            let after = instance::with_values(data, chunk, base, found, n + 1, fields);
            let none = forall|k: Seq<char>| !#[trigger] gives(data, chunk, found, n, k);
            &&& gives(data, chunk, found, n, key) ==> after == before.insert(
                key,
                text::clipped(text_at(data, found, n), 4096),
            )
            &&& !found.descriptors[n].is_set() ==> after == before
            &&& found.descriptors[n].vtype != 33 && none ==> after == before
        }),
{
    let d = found.descriptors[n];
    let before = instance::with_values(data, chunk, base, found, n, fields);
    let after = instance::with_values(data, chunk, base, found, n + 1, fields);
    if d.is_set() && d.vtype != 33 {
        if let Some(name) = instance::value_name(chunk, found.template, n) {
            assert(gives(data, chunk, found, n, name) || after == before);
        }
    }
}

} // verus!
