//! What a template definition says, in terms of the elements, attributes,
//! values and substitutions that its bytes spell.

use vstd::prelude::*;

use crate::artifacts::evtx::template;
use crate::artifacts::evtx::values;
use crate::artifacts::reader;
use crate::text;

verus! {

/// A part of a definition.
pub enum Part {
    /// `<name`
    Open(Seq<char>),
    /// `/>` or `</name>`
    Close,
    /// The name of an attribute.
    Attribute(Seq<char>),
    /// A value that stands in the definition.
    Value(Seq<char>),
    /// The place of a value, by its number.
    Substitution(u16),
    /// `>`, the start of a fragment, or a token that has no meaning here.
    Nothing,
}

/// Where a reference to a name ends that starts at `pos`: behind its four bytes,
/// and behind the name itself where that stands there and not before.
pub open spec fn reference_end(data: Seq<u8>, chunk: Seq<u8>, base: int, pos: int) -> int {
    let name = reader::le32(data, pos) as int;
    if name < base + pos + 4 {
        pos + 4
    } else {
        pos + 4 + 10 + 2 * text::le16(chunk[name + 6], chunk[name + 7])
    }
}

/// Whether a reference to a name stands at `pos`.
pub open spec fn is_reference(data: Seq<u8>, chunk: Seq<u8>, base: int, pos: int, name: Seq<char>) -> bool {
    &&& pos + 4 <= data.len()
    &&& values::name_at(chunk, reader::le32(data, pos) as int) == name
    &&& reader::le32(data, pos) >= base + pos + 4 ==> reader::le32(data, pos) + 8 <= chunk.len()
    &&& reference_end(data, chunk, base, pos) <= data.len()
}

/// Whether a byte is the token of a part with a meaning, of a fragment or of the
/// end. All others, `>` among them, are stepped over.
pub open spec fn has_meaning(tok: u8) -> bool {
    ||| tok == 0x00
    ||| tok == 0x01
    ||| tok == 0x41
    ||| tok == 0x03
    ||| tok == 0x04
    ||| tok == 0x05
    ||| tok == 0x06
    ||| tok == 0x46
    ||| tok == 0x0D
    ||| tok == 0x0E
    ||| tok == 0x4D
    ||| tok == 0x4E
    ||| tok == 0x0F
}

/// Whether nothing more is read from `pos` on: the data ends, the end token
/// stands there, or a part that is cut off.
pub open spec fn is_end(data: Seq<u8>, pos: int) -> bool {
    let tok = data[pos];
    ||| pos >= data.len()
    ||| tok == 0x00
    ||| (tok == 0x01 || tok == 0x41) && pos + 11 > data.len()
    ||| (tok == 0x06 || tok == 0x46) && pos + 5 > data.len()
    ||| tok == 0x05 && pos + 2 > data.len()
    ||| (tok == 0x0D || tok == 0x0E || tok == 0x4D || tok == 0x4E) && pos + 4 > data.len()
}

/// Where a part ends that the bytes from `pos` on spell, `None` where they spell
/// another one. `base` is where `data` starts in the chunk.
pub open spec fn part_end(data: Seq<u8>, chunk: Seq<u8>, base: int, pos: int, part: Part) -> Option<
    int,
> {
    let tok = data[pos];
    if pos < 0 || pos >= data.len() {
        None
    } else {
        match part {
            Part::Open(name) => {
                // Two bytes of a dependency, four of a size, and the name.
                let end = reference_end(data, chunk, base, pos + 7);
                if !is_reference(data, chunk, base, pos + 7, name) {
                    None
                } else if tok == 0x01 {
                    Some(end)
                } else if tok == 0x41 && end + 4 <= data.len() {
                    Some(end + 4)
                } else {
                    None
                }
            },
            Part::Close => if tok == 0x03 || tok == 0x04 {
                Some(pos + 1)
            } else {
                None
            },
            Part::Attribute(name) => if (tok == 0x06 || tok == 0x46) && is_reference(
                data,
                chunk,
                base,
                pos + 1,
                name,
            ) {
                Some(reference_end(data, chunk, base, pos + 1))
            } else {
                None
            },
            Part::Value(text) => if tok == 0x05 && pos + 2 <= data.len() && values::value_at(
                data,
                pos + 2,
                data[pos + 1],
            ).0 == text {
                Some(values::value_at(data, pos + 2, data[pos + 1]).1)
            } else {
                None
            },
            Part::Substitution(id) => if (tok == 0x0D || tok == 0x0E || tok == 0x4D || tok == 0x4E)
                && pos + 4 <= data.len() && id == data[pos + 1] + 256 * data[pos + 2] {
                Some(pos + 4)
            } else {
                None
            },
            Part::Nothing => if tok == 0x0F && pos + 4 <= data.len() {
                Some(pos + 4)
            } else if !has_meaning(tok) {
                Some(pos + 1)
            } else {
                None
            },
        }
    }
}

/// Where a list of parts ends that the bytes spell from the start on.
pub open spec fn parts_end(data: Seq<u8>, chunk: Seq<u8>, base: int, parts: Seq<Part>) -> Option<int>
    decreases parts.len(),
{
    if parts.len() == 0 {
        Some(0)
    } else {
        match parts_end(data, chunk, base, parts.drop_last()) {
            Some(pos) => part_end(data, chunk, base, pos, parts.last()),
            None => None,
        }
    }
}

/// The elements that are open behind a list of parts.
pub open spec fn open_elements(parts: Seq<Part>) -> Seq<Seq<char>>
    decreases parts.len(),
{
    if parts.len() == 0 {
        seq![]
    } else {
        let before = open_elements(parts.drop_last());
        match parts.last() {
            Part::Open(name) => before.push(name),
            Part::Close => if before.len() > 0 {
                before.drop_last()
            } else {
                before
            },
            _ => before,
        }
    }
}

/// The innermost of them.
pub open spec fn element(parts: Seq<Part>) -> Seq<char> {
    let open = open_elements(parts);
    if open.len() > 0 {
        open.last()
    } else {
        seq![]
    }
}

/// The attribute that still has no value behind a list of parts.
pub open spec fn attribute(parts: Seq<Part>) -> Seq<char>
    decreases parts.len(),
{
    if parts.len() == 0 {
        seq![]
    } else {
        match parts.last() {
            Part::Attribute(name) => name,
            Part::Value(_) => seq![],
            Part::Substitution(_) => seq![],
            _ => attribute(parts.drop_last()),
        }
    }
}

/// Whether a value behind a list of parts is the `Name` of a `Data` element.
pub open spec fn names_data(parts: Seq<Part>) -> bool {
    attribute(parts) == "Name"@ && open_elements(parts).len() > 0 && element(parts) == "Data"@
}

/// The `Name` of the `Data` element that was opened last.
pub open spec fn data_name(parts: Seq<Part>) -> Seq<char>
    decreases parts.len(),
{
    if parts.len() == 0 {
        seq![]
    } else {
        let before = parts.drop_last();
        match parts.last() {
            Part::Open(_) => seq![],
            Part::Value(text) => if names_data(before) {
                text
            } else {
                data_name(before)
            },
            _ => data_name(before),
        }
    }
}

/// What a substitution behind a list of parts is called: by the `Name` of its
/// `Data` element, else by its place.
pub open spec fn name_behind(parts: Seq<Part>) -> Option<Seq<char>> {
    if element(parts) == "Data"@ && data_name(parts).len() > 0 {
        Some(data_name(parts))
    } else {
        template::context_name(element(parts), attribute(parts))
    }
}

/// The names of the substitutions in a list of parts, by number. The last one
/// of a number counts.
pub open spec fn names_of(parts: Seq<Part>) -> Map<u16, Seq<char>>
    decreases parts.len(),
{
    if parts.len() == 0 {
        Map::empty()
    } else {
        let before = parts.drop_last();
        match parts.last() {
            Part::Substitution(id) => match name_behind(before) {
                Some(name) => names_of(before).insert(id, name),
                None => names_of(before),
            },
            _ => names_of(before),
        }
    }
}

/// The fields whose values stand in a list of parts.
pub open spec fn literals_of(parts: Seq<Part>) -> Map<Seq<char>, Seq<char>>
    decreases parts.len(),
{
    if parts.len() == 0 {
        Map::empty()
    } else {
        let before = parts.drop_last();
        match parts.last() {
            Part::Value(text) => match template::context_name(element(before), seq![]) {
                Some(name) => if !names_data(before) && text.len() > 0 && open_elements(before).len()
                    > 0 && attribute(before).len() == 0 {
                    literals_of(before).insert(name, text)
                } else {
                    literals_of(before)
                },
                None => literals_of(before),
            },
            _ => literals_of(before),
        }
    }
}

spec fn state_behind(parts: Seq<Part>, pos: int) -> template::TemplateState {
    template::TemplateState {
        pos,
        stack: open_elements(parts),
        attr: attribute(parts),
        data_name: data_name(parts),
        found: template::TemplateView {
            field_map: names_of(parts),
            literal_fields: literals_of(parts),
        },
    }
}

proof fn lemma_part(data: Seq<u8>, chunk: Seq<u8>, base: int, parts: Seq<Part>, pos: int, part: Part)
    requires
        0 <= base,
        part_end(data, chunk, base, pos, part) is Some,
    ensures
        ({
            let end = part_end(data, chunk, base, pos, part)->0;
            &&& pos < end
            &&& state_behind(parts, pos).next(data, chunk, base) == Some(
                state_behind(parts.push(part), end),
            )
        }),
{
    let more = parts.push(part);
    assert(more.drop_last() =~= parts);
    assert(more.last() == part);
    let end = part_end(data, chunk, base, pos, part)->0;
    let state = state_behind(parts, pos);
    let next = state_behind(more, end);
    match part {
        Part::Open(name) => {
            let at = pos + 7;
            let off = reader::le32(data, at);
            assert(reader::u32_at(data, at) == Some(off));
        },
        Part::Attribute(name) => {
            let off = reader::le32(data, pos + 1);
            assert(reader::u32_at(data, pos + 1) == Some(off));
        },
        Part::Value(_) => {
            lemma_value_end(data, pos + 2, data[pos + 1]);
        },
        _ => {},
    }
    assert(state.next(data, chunk, base)->0 =~= next);
}

proof fn lemma_value_end(data: Seq<u8>, pos: int, vtype: u8)
    ensures
        values::value_at(data, pos, vtype).1 >= pos,
{
}

proof fn lemma_parts(data: Seq<u8>, chunk: Seq<u8>, base: int, parts: Seq<Part>)
    requires
        0 <= base,
        parts_end(data, chunk, base, parts) is Some,
    ensures
        0 <= parts_end(data, chunk, base, parts)->0,
        template::template_of(data, chunk, base) == template::template_from(
            data,
            chunk,
            base,
            state_behind(parts, parts_end(data, chunk, base, parts)->0),
        ),
    decreases parts.len(),
{
    if parts.len() == 0 {
        assert(state_behind(parts, 0) =~= template::template_start());
    } else {
        let before = parts.drop_last();
        lemma_parts(data, chunk, base, before);
        let pos = parts_end(data, chunk, base, before)->0;
        lemma_part(data, chunk, base, before, pos, parts.last());
        assert(before.push(parts.last()) =~= parts);
    }
}

/// A definition whose bytes spell a list of parts and then its end says exactly what the list says: the names of its substitutions,
/// normal or optional alike, and the values that stand in it.
pub proof fn law_definition_says_what_it_spells(
    data: Seq<u8>,
    chunk: Seq<u8>,
    base: int,
    parts: Seq<Part>,
)
    requires
        0 <= base,
        parts_end(data, chunk, base, parts) is Some,
        is_end(data, parts_end(data, chunk, base, parts)->0),
    ensures
        template::template_of(data, chunk, base).field_map == names_of(parts),
        template::template_of(data, chunk, base).literal_fields == literals_of(parts),
{
    lemma_parts(data, chunk, base, parts);
}

/// A `Data` element with a `Name` and a substitution in it, whatever stands
/// before and behind it, names the number of the substitution.
pub proof fn law_data_element_names_its_value(before: Seq<Part>, name: Seq<char>, id: u16)
    requires
        name.len() > 0,
    ensures
        ({
            let parts = before + seq![
                Part::Open("Data"@),
                Part::Attribute("Name"@),
                Part::Value(name),
                Part::Nothing,
                Part::Substitution(id),
                Part::Close,
            ];
            &&& names_of(parts) == names_of(before).insert(id, name)
            &&& literals_of(parts) == literals_of(before)
            &&& open_elements(parts) == open_elements(before)
        }),
{
    let a = before.push(Part::Open("Data"@));
    let b = a.push(Part::Attribute("Name"@));
    let c = b.push(Part::Value(name));
    let d = c.push(Part::Nothing);
    let e = d.push(Part::Substitution(id));
    let f = e.push(Part::Close);
    assert(a.drop_last() =~= before && b.drop_last() =~= a && c.drop_last() =~= b);
    assert(d.drop_last() =~= c && e.drop_last() =~= d && f.drop_last() =~= e);
    assert(f =~= before + seq![
        Part::Open("Data"@),
        Part::Attribute("Name"@),
        Part::Value(name),
        Part::Nothing,
        Part::Substitution(id),
        Part::Close,
    ]);
    let open = open_elements(before).push("Data"@);
    assert(open_elements(a) == open);
    assert(open_elements(b) == open);
    assert(open_elements(c) == open);
    assert(open_elements(d) == open);
    assert(open_elements(e) == open);
    assert(attribute(b) == "Name"@);
    assert(names_data(b));
    assert(data_name(c) == name);
    assert(data_name(d) == name);
    assert(names_of(a) == names_of(before));
    assert(names_of(b) == names_of(a));
    assert(names_of(c) == names_of(b));
    assert(names_of(d) == names_of(c));
    assert(names_of(e) == names_of(d).insert(id, name));
    assert(names_of(f) == names_of(e));
    assert(literals_of(a) == literals_of(before));
    assert(literals_of(b) == literals_of(a));
    assert(literals_of(c) == literals_of(b));
    assert(literals_of(d) == literals_of(c));
    assert(literals_of(e) == literals_of(d));
    assert(literals_of(f) == literals_of(e));
    assert(open.drop_last() =~= open_elements(before));
    assert(open_elements(f) =~= open_elements(before));
}

// ---------------------------------------------------------------------
// Names by place
// ---------------------------------------------------------------------

/// The fields that have a place of their own: the element, the attribute (or
/// none) and the field.
pub open spec fn places() -> Seq<(Seq<char>, Seq<char>, Seq<char>)> {
    seq![
        ("Provider"@, "Name"@, "Provider"@),
        ("Provider"@, "Guid"@, "ProviderGuid"@),
        ("EventID"@, "Qualifiers"@, "Qualifiers"@),
        ("EventID"@, ""@, "EventID"@),
        ("Level"@, ""@, "Level"@),
        ("Task"@, ""@, "Task"@),
        ("Opcode"@, ""@, "Opcode"@),
        ("Keywords"@, ""@, "Keywords"@),
        ("TimeCreated"@, "SystemTime"@, "TimeCreated"@),
        ("EventRecordID"@, ""@, "EventRecordID"@),
        ("Execution"@, "ProcessID"@, "ProcessID"@),
        ("Execution"@, "ThreadID"@, "ThreadID"@),
        ("Correlation"@, "ActivityID"@, "ActivityID"@),
        ("Channel"@, ""@, "Channel"@),
        ("Computer"@, ""@, "Computer"@),
        ("Security"@, "UserID"@, "UserID"@),
        ("Version"@, ""@, "Version"@),
    ]
}

/// A place names the field that the list of places has for it, and any other
/// place none.
pub proof fn law_places_name_their_fields(elem: Seq<char>, attr: Seq<char>)
    ensures
        forall|i: int|
            0 <= i < 17 && (#[trigger] places()[i]).0 == elem && places()[i].1 == attr
                ==> template::context_name(elem, attr) == Some(places()[i].2),
        (forall|i: int|
            0 <= i < 17 ==> !((#[trigger] places()[i]).0 == elem && places()[i].1 == attr))
            ==> template::context_name(elem, attr) is None,
{
    reveal_strlit("");
    reveal_strlit("Name");
    reveal_strlit("Guid");
    reveal_strlit("Qualifiers");
    reveal_strlit("SystemTime");
    reveal_strlit("ProcessID");
    reveal_strlit("ThreadID");
    reveal_strlit("ActivityID");
    reveal_strlit("UserID");
    assert("Name"@.len() == 4 && "Guid"@.len() == 4 && "Name"@[0] == 'N' && "Guid"@[0] == 'G');
    assert("ProcessID"@.len() == 9 && "ThreadID"@.len() == 8 && "UserID"@.len() == 6);
    assert("Qualifiers"@.len() == 10 && "Qualifiers"@[0] == 'Q');
    assert("SystemTime"@.len() == 10 && "SystemTime"@[0] == 'S');
    assert("ActivityID"@.len() == 10 && "ActivityID"@[0] == 'A');
    assert(""@ =~= seq![]);
    let p = places();
    assert(p[0] == ("Provider"@, "Name"@, "Provider"@));
    assert(template::context_name("Provider"@, "Name"@) == Some("Provider"@));
    assert(p[1] == ("Provider"@, "Guid"@, "ProviderGuid"@));
    assert(template::context_name("Provider"@, "Guid"@) == Some("ProviderGuid"@));
    assert(p[2] == ("EventID"@, "Qualifiers"@, "Qualifiers"@));
    assert(template::context_name("EventID"@, "Qualifiers"@) == Some("Qualifiers"@));
    assert(p[3] == ("EventID"@, ""@, "EventID"@));
    assert(template::context_name("EventID"@, ""@) == Some("EventID"@));
    assert(p[4] == ("Level"@, ""@, "Level"@));
    assert(template::context_name("Level"@, ""@) == Some("Level"@));
    assert(p[5] == ("Task"@, ""@, "Task"@));
    assert(template::context_name("Task"@, ""@) == Some("Task"@));
    assert(p[6] == ("Opcode"@, ""@, "Opcode"@));
    assert(template::context_name("Opcode"@, ""@) == Some("Opcode"@));
    assert(p[7] == ("Keywords"@, ""@, "Keywords"@));
    assert(template::context_name("Keywords"@, ""@) == Some("Keywords"@));
    assert(p[8] == ("TimeCreated"@, "SystemTime"@, "TimeCreated"@));
    assert(template::context_name("TimeCreated"@, "SystemTime"@) == Some("TimeCreated"@));
    assert(p[9] == ("EventRecordID"@, ""@, "EventRecordID"@));
    assert(template::context_name("EventRecordID"@, ""@) == Some("EventRecordID"@));
    assert(p[10] == ("Execution"@, "ProcessID"@, "ProcessID"@));
    assert(template::context_name("Execution"@, "ProcessID"@) == Some("ProcessID"@));
    assert(p[11] == ("Execution"@, "ThreadID"@, "ThreadID"@));
    assert(template::context_name("Execution"@, "ThreadID"@) == Some("ThreadID"@));
    assert(p[12] == ("Correlation"@, "ActivityID"@, "ActivityID"@));
    assert(template::context_name("Correlation"@, "ActivityID"@) == Some("ActivityID"@));
    assert(p[13] == ("Channel"@, ""@, "Channel"@));
    assert(template::context_name("Channel"@, ""@) == Some("Channel"@));
    assert(p[14] == ("Computer"@, ""@, "Computer"@));
    assert(template::context_name("Computer"@, ""@) == Some("Computer"@));
    assert(p[15] == ("Security"@, "UserID"@, "UserID"@));
    assert(template::context_name("Security"@, "UserID"@) == Some("UserID"@));
    assert(p[16] == ("Version"@, ""@, "Version"@));
    assert(template::context_name("Version"@, ""@) == Some("Version"@));
    assert forall|i: int|
        0 <= i < 17 && (#[trigger] places()[i]).0 == elem && places()[i].1 == attr implies template::context_name(
        elem,
        attr,
    ) == Some(places()[i].2) by {
        assert(i == 0 || i == 1 || i == 2 || i == 3 || i == 4 || i == 5 || i == 6 || i == 7 || i == 8
            || i == 9 || i == 10 || i == 11 || i == 12 || i == 13 || i == 14 || i == 15 || i == 16);
    }
    if template::context_name(elem, attr) is Some {
        if attr.len() == 0 {
            assert(attr =~= ""@);
        }
    }
}

/// A definition at `offset` of a chunk has its size in the four bytes at 20 and
/// its BinXML behind that, and has to lie in the chunk.
pub proof fn law_definition_has_a_header_of_24_bytes(chunk: Seq<u8>, offset: int)
    requires
        0 <= offset,
    ensures
        ({
            let size = reader::le32(chunk, offset + 20) as int;
            template::template_at(chunk, offset) == if offset + 24 <= chunk.len() && offset + 24
                + size <= chunk.len() {
                Some(
                    template::template_of(
                        chunk.subrange(offset + 24, offset + 24 + size),
                        chunk,
                        offset + 24,
                    ),
                )
            } else {
                None
            }
        }),
{
}

/// A name stands behind eight bytes, of which the last two say how many units of
/// two bytes it has; it is empty where it is cut off.
pub proof fn law_name_stands_behind_its_length(data: Seq<u8>, offset: int)
    requires
        0 <= offset,
    ensures
        ({
            let len = 2 * text::le16(data[offset + 6], data[offset + 7]);
            values::name_at(data, offset) == if offset + 8 <= data.len() && offset + 8 + len
                <= data.len() {
                text::utf16_lossy(text::units_of(data.subrange(offset + 8, offset + 8 + len)))
            } else {
                seq![]
            }
        }),
{
}

} // verus!
