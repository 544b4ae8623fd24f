//! What a record says, in terms of the bytes of its BinXML.

use vstd::prelude::*;
use vstd::utf8::*;

use super::template;
use crate::artifacts::evtx::binxml;
use crate::artifacts::evtx::instance;
use crate::artifacts::evtx::template as definition;
use crate::artifacts::evtx::values;
use crate::artifacts::reader;
use crate::text;

verus! {

/// The innermost of the open elements.
pub open spec fn inner(stack: Seq<Seq<char>>) -> Seq<char> {
    if stack.len() > 0 {
        stack.last()
    } else {
        seq![]
    }
}

/// Whether the reading of a record goes on at a state: there are bytes left, and
/// fewer than 256 fields were found.
pub open spec fn goes_on(data: Seq<u8>, state: binxml::RecordState) -> bool {
    0 <= state.pos < data.len() && state.fields.len() < 256
}

/// A record starts at its first byte, with no element open and no field found.
pub proof fn law_record_starts_empty(data: Seq<u8>, chunk: Seq<u8>, base: int)
    ensures
        binxml::fields_of(data, chunk, base) == binxml::fields_from(
            data,
            chunk,
            base,
            binxml::RecordState {
                pos: 0,
                stack: Seq::empty(),
                attr: Seq::empty(),
                fields: Map::empty(),
            },
        ),
{
}

/// Whether a token opens or closes an element, names an attribute, comes before
/// a value or an instance, or has three bytes behind it that mean nothing here.
pub open spec fn is_known(tok: u8) -> bool {
    ||| tok == 0x01
    ||| tok == 0x02
    ||| tok == 0x03
    ||| tok == 0x05
    ||| tok == 0x06
    ||| tok == 0x0C
    ||| tok == 0x0D
    ||| tok == 0x0E
    ||| tok == 0x0F
}

/// A record ends at its last byte, at its 256th field, at an unknown token, and
/// where what belongs to a token is cut off.
pub proof fn law_record_ends(data: Seq<u8>, chunk: Seq<u8>, base: int, state: binxml::RecordState)
    requires
        ({
            let tok = data[state.pos];
            ||| state.pos >= data.len()
            ||| state.fields.len() >= 256
            ||| !is_known(tok)
            ||| tok == 0x01 && state.pos + 11 > data.len()
            ||| tok == 0x06 && state.pos + 5 > data.len()
            ||| tok == 0x05 && state.pos + 2 > data.len()
            ||| (tok == 0x0D || tok == 0x0E || tok == 0x0F) && state.pos + 4 > data.len()
        }),
    ensures
        binxml::fields_from(data, chunk, base, state) == state.fields,
{
}

/// The start of a fragment and a substitution have three bytes behind their
/// tokens, and change nothing.
pub proof fn law_four_bytes_are_stepped_over(
    data: Seq<u8>,
    chunk: Seq<u8>,
    base: int,
    state: binxml::RecordState,
)
    requires
        goes_on(data, state),
        data[state.pos] == 0x0F || data[state.pos] == 0x0D || data[state.pos] == 0x0E,
        state.pos + 4 <= data.len(),
    ensures
        binxml::fields_from(data, chunk, base, state) == binxml::fields_from(
            data,
            chunk,
            base,
            binxml::RecordState { pos: state.pos + 4, ..state },
        ),
{
}

/// An element is opened by eleven bytes, the last four of which say where its
/// name is. It stays the innermost one until it is closed, by one byte; then the
/// one around it is.
pub proof fn law_elements_nest(
    data: Seq<u8>,
    chunk: Seq<u8>,
    base: int,
    state: binxml::RecordState,
)
    requires
        goes_on(data, state),
    ensures
        data[state.pos] == 0x01 && state.pos + 11 <= data.len() ==> binxml::fields_from(
            data,
            chunk,
            base,
            state,
        ) == binxml::fields_from(
            data,
            chunk,
            base,
            binxml::RecordState {
                pos: state.pos + 11,
                stack: state.stack.push(
                    values::name_at(data, reader::le32(data, state.pos + 7) as int),
                ),
                ..state
            },
        ),
        (data[state.pos] == 0x02 || data[state.pos] == 0x03) && state.stack.len() > 0
            ==> binxml::fields_from(data, chunk, base, state) == binxml::fields_from(
            data,
            chunk,
            base,
            binxml::RecordState {
                pos: state.pos + 1,
                stack: state.stack.drop_last(),
                attr: Seq::empty(),
                fields: state.fields,
            },
        ),
        (data[state.pos] == 0x02 || data[state.pos] == 0x03) && state.stack.len() == 0
            ==> binxml::fields_from(data, chunk, base, state) == binxml::fields_from(
            data,
            chunk,
            base,
            binxml::RecordState {
                pos: state.pos + 1,
                stack: Seq::empty(),
                attr: Seq::empty(),
                fields: state.fields,
            },
        ),
{
    if state.stack.len() == 0 {
        assert(state.stack =~= Seq::<Seq<char>>::empty());
    }
}

/// The field of an attribute's value: that of its place, or both names with a
/// slash between them where the place has none.
pub open spec fn is_key(elem: Seq<char>, attr: Seq<char>, key: Seq<char>) -> bool {
    ||| exists|i: int|
        #![trigger template::places()[i]]
        0 <= i < 17 && template::places()[i] == (elem, attr, key)
    ||| (forall|i: int|
        #![trigger template::places()[i]]
        0 <= i < 17 ==> !(template::places()[i].0 == elem && template::places()[i].1 == attr)) && key
        == elem + "/"@ + attr
}

/// An attribute (five bytes, of which the last four say where its name is) and
/// its value (its token, its type, and what belongs to it) set one field, to the
/// first 4096 characters of the value. Nothing is set where the value is empty
/// or the field's name has more than 64 bytes.
pub proof fn law_attribute_sets_its_field(
    data: Seq<u8>,
    chunk: Seq<u8>,
    base: int,
    state: binxml::RecordState,
    key: Seq<char>,
)
    requires
        goes_on(data, state),
        data[state.pos] == 0x06,
        state.pos + 7 <= data.len(),
        data[state.pos + 5] == 0x05,
        ({
            let attr = values::name_at(data, reader::le32(data, state.pos + 1) as int);
            let elem = inner(state.stack);
            attr.len() > 0 && is_key(elem, attr, key) && !(elem == "Data"@ && attr == "Name"@)
        }),
        values::value_at(data, state.pos + 7, data[state.pos + 6]).1 >= state.pos + 7,
    ensures
        ({
            let (val, end) = values::value_at(data, state.pos + 7, data[state.pos + 6]);
            binxml::fields_from(data, chunk, base, state) == binxml::fields_from(
                data,
                chunk,
                base,
                binxml::RecordState {
                    pos: end,
                    stack: state.stack,
                    attr: Seq::empty(),
                    fields: if val.len() > 0 && encode_utf8(key).len() <= 64 {
                        state.fields.insert(key, text::clipped(val, 4096))
                    } else {
                        state.fields
                    },
                },
            )
        }),
{
    let attr = values::name_at(data, reader::le32(data, state.pos + 1) as int);
    let elem = inner(state.stack);
    template::law_places_name_their_fields(elem, attr);
    let named = binxml::RecordState { pos: state.pos + 5, attr, ..state };
    assert(state.next(data, chunk, base) == Some(named));
    assert(binxml::attribute_key(elem, attr) == key);
    let (val, end) = values::value_at(data, state.pos + 7, data[state.pos + 6]);
    assert(named.next(data, chunk, base) == Some(named.value(val, end)));
    reveal_with_fuel(binxml::fields_from, 3);
}

/// A value of an element other than `Data` that follows no attribute sets the
/// field of the element's name.
pub proof fn law_element_sets_its_field(
    data: Seq<u8>,
    chunk: Seq<u8>,
    base: int,
    state: binxml::RecordState,
)
    requires
        goes_on(data, state),
        data[state.pos] == 0x05,
        state.pos + 2 <= data.len(),
        state.attr.len() == 0,
        inner(state.stack) != "Data"@,
        values::value_at(data, state.pos + 2, data[state.pos + 1]).1 >= state.pos + 2,
    ensures
        ({
            let (val, end) = values::value_at(data, state.pos + 2, data[state.pos + 1]);
            let elem = inner(state.stack);
            binxml::fields_from(data, chunk, base, state) == binxml::fields_from(
                data,
                chunk,
                base,
                binxml::RecordState {
                    pos: end,
                    stack: state.stack,
                    attr: Seq::empty(),
                    fields: if val.len() > 0 && elem.len() > 0 && encode_utf8(elem).len() <= 64 {
                        state.fields.insert(elem, text::clipped(val, 4096))
                    } else {
                        state.fields
                    },
                },
            )
        }),
{
    assert(definition::innermost(state.stack) == inner(state.stack));
}

/// A `Data` element with a `Name` and a value sets the field that the `Name`
/// says to the value, and nothing else.
pub proof fn law_data_sets_the_field_it_names(
    data: Seq<u8>,
    chunk: Seq<u8>,
    base: int,
    state: binxml::RecordState,
)
    requires
        goes_on(data, state),
        state.fields.len() + 1 < 256,
        inner(state.stack) == "Data"@,
        !state.fields.contains_key("_DataName"@),
        state.fields.dom().finite(),
        data[state.pos] == 0x06,
        state.pos + 7 <= data.len(),
        values::name_at(data, reader::le32(data, state.pos + 1) as int) == "Name"@,
        data[state.pos + 5] == 0x05,
        ({
            let (name, mid) = values::value_at(data, state.pos + 7, data[state.pos + 6]);
            let (val, end) = values::value_at(data, mid + 2, data[mid + 1]);
            &&& name.len() > 0
            &&& state.pos + 7 <= mid
            &&& mid + 2 <= data.len()
            &&& data[mid] == 0x05
            &&& val.len() > 0
            &&& mid + 2 <= end
        }),
    ensures
        ({
            let (name, mid) = values::value_at(data, state.pos + 7, data[state.pos + 6]);
            let (val, end) = values::value_at(data, mid + 2, data[mid + 1]);
            binxml::fields_from(data, chunk, base, state) == binxml::fields_from(
                data,
                chunk,
                base,
                binxml::RecordState {
                    pos: end,
                    stack: state.stack,
                    attr: Seq::empty(),
                    fields: state.fields.insert(
                        text::clipped(name, 4096),
                        text::clipped(val, 4096),
                    ),
                },
            )
        }),
{
    reveal_strlit("_DataName");
    reveal_strlit("Name");
    let waiting = "_DataName"@;
    let (name, mid) = values::value_at(data, state.pos + 7, data[state.pos + 6]);
    let (val, end) = values::value_at(data, mid + 2, data[mid + 1]);
    let first = binxml::RecordState { pos: state.pos + 5, attr: "Name"@, ..state };
    assert(state.next(data, chunk, base) == Some(first));
    let second = first.value(name, mid);
    assert(first.next(data, chunk, base) == Some(second));
    lemma_ascii_is_short();
    assert(second.fields == state.fields.insert(waiting, text::clipped(name, 4096)));
    assert(second.fields.len() < 256);
    let third = second.value(val, end);
    assert(second.next(data, chunk, base) == Some(third));
    let kept = text::clipped(name, 4096);
    assert(second.fields.remove(waiting) =~= state.fields);
    assert(third.fields =~= state.fields.insert(kept, text::clipped(val, 4096)));
    reveal_with_fuel(binxml::fields_from, 4);
}

/// A value of a `Data` element sets nothing where no `Name` waits for it, and an
/// empty value sets nothing anywhere.
pub proof fn law_values_without_a_field_set_nothing(
    data: Seq<u8>,
    chunk: Seq<u8>,
    base: int,
    state: binxml::RecordState,
)
    requires
        goes_on(data, state),
        data[state.pos] == 0x05,
        state.pos + 2 <= data.len(),
        ({
            let (val, end) = values::value_at(data, state.pos + 2, data[state.pos + 1]);
            &&& end >= state.pos + 2
            &&& val.len() == 0 || (inner(state.stack) == "Data"@ && state.attr.len() == 0
                && !state.fields.contains_key("_DataName"@))
        }),
    ensures
        binxml::fields_from(data, chunk, base, state) == binxml::fields_from(
            data,
            chunk,
            base,
            binxml::RecordState {
                pos: values::value_at(data, state.pos + 2, data[state.pos + 1]).1,
                stack: state.stack,
                attr: Seq::empty(),
                fields: state.fields,
            },
        ),
{
    assert(definition::innermost(state.stack) == inner(state.stack));
}

/// A template instance stands behind its token, and sets what it gives. What
/// comes behind it is read on. One that is cut off sets nothing.
pub proof fn law_instances_are_read_in_place(
    data: Seq<u8>,
    chunk: Seq<u8>,
    base: int,
    state: binxml::RecordState,
)
    requires
        goes_on(data, state),
        data[state.pos] == 0x0C,
    ensures
        ({
            let (found, end) = instance::instance_at(data, chunk, base, state.pos + 1);
            end > state.pos ==> binxml::fields_from(data, chunk, base, state)
                == binxml::fields_from(
                data,
                chunk,
                base,
                binxml::RecordState {
                    pos: end,
                    stack: state.stack,
                    attr: state.attr,
                    fields: match found {
                        Some(found) => instance::with_instance(
                            data,
                            chunk,
                            base,
                            found,
                            state.fields,
                        ),
                        None => state.fields,
                    },
                },
            )
        }),
{
}

proof fn lemma_ascii_is_short()
    ensures
        encode_utf8("_DataName"@).len() <= 64,
{
    reveal_strlit("_DataName");
    reveal_with_fuel(encode_utf8, 10);
}

} // verus!
