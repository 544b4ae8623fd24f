//! Template instances: values that take the places in a template.

use vstd::prelude::*;
use vstd::utf8::*;

use super::super::reader;
use super::super::reader::{Cursor, Reader};
use super::fields;
use super::fields::FieldMap;
use super::template;
use super::template::{TemplateCache, TOK_FRAG_HDR, TOK_TMPL_INST};
use super::values;
use crate::text;

verus! {

broadcast use vstd::std_specs::hash::group_hash_axioms;

pub const FLAG_NULL: u8 = 0x80;

/// The most values that an instance can have.
pub const MAX_VALUES: u32 = 512;

/// The most characters that are kept of a value.
pub const MAX_FIELD_LEN: usize = 4096;

/// The most bytes of a field's name.
pub const MAX_NAME_LEN: usize = 64;

// ---------------------------------------------------------------------
// Reading an instance
// ---------------------------------------------------------------------

/// What an instance says of one of its values.
#[derive(Debug, Clone, Copy)]
pub struct Descriptor {
    pub size: u16,
    pub vtype: u8,
    pub flags: u8,
}

impl Descriptor {
    /// Whether there is a value.
    pub open spec fn is_set(self) -> bool {
        self.flags & FLAG_NULL == 0 && self.size != 0
    }
}

/// The `n` descriptors at `pos`.
pub open spec fn descriptors_at(data: Seq<u8>, pos: int, n: int) -> Seq<Descriptor> {
    Seq::new(
        n as nat,
        |i: int|
            Descriptor {
                size: text::le16(data[pos + 4 * i], data[pos + 4 * i + 1]),
                vtype: data[pos + 4 * i + 2],
                flags: data[pos + 4 * i + 3],
            },
    )
}

/// The bytes of the first `n` values.
pub open spec fn size_of_first(descriptors: Seq<Descriptor>, n: int) -> int
    decreases n,
{
    if n <= 0 {
        0
    } else {
        size_of_first(descriptors, n - 1) + descriptors[n - 1].size
    }
}

/// An instance: the offset of its template, its descriptors, and where its
/// values start.
pub struct InstanceView {
    pub template: int,
    pub descriptors: Seq<Descriptor>,
    pub values_at: int,
}

/// Where an instance whose template is at `template` goes on behind `pos`: a
/// definition that was not used before stands right there, and is stepped
/// over. `None` where it is cut off.
pub open spec fn after_definition(
    data: Seq<u8>,
    chunk: Seq<u8>,
    base: int,
    pos: int,
    template: int,
) -> Option<int> {
    if template == base + pos && template + 24 <= chunk.len() {
        let size = 24 + reader::le32(chunk, template + 20);
        if reader::in_bounds(data, pos, size) {
            Some(pos + size)
        } else {
            None
        }
    } else {
        Some(pos)
    }
}

/// The instance at `pos`, and where it ends. Where it is cut off there is
/// none, and reading goes on where that was found out. `base` is where `data`
/// starts in the chunk.
pub open spec fn instance_at(data: Seq<u8>, chunk: Seq<u8>, base: int, pos: int) -> (
    Option<InstanceView>,
    int,
) {
    if !reader::in_bounds(data, pos, 1) {
        (None, pos)
    } else if !reader::in_bounds(data, pos + 1, 4) {
        (None, pos + 1)
    } else {
        match reader::u32_at(data, pos + 5) {
            Some(template) => match after_definition(data, chunk, base, pos + 9, template as int) {
                Some(at) => values_of(data, at, template as int),
                None => (None, pos + 9),
            },
            None => (None, pos + 5),
        }
    }
}

/// The values at `pos` of an instance, and where they end.
pub open spec fn values_of(data: Seq<u8>, pos: int, template: int) -> (Option<InstanceView>, int) {
    match reader::u32_at(data, pos) {
        Some(count) => if count > MAX_VALUES {
            (None, pos + 4)
        } else if pos + 4 + 4 * count > data.len() {
            (None, data.len() as int)
        } else {
            let descriptors = descriptors_at(data, pos + 4, count as int);
            let values_at = pos + 4 + 4 * count;
            let size = size_of_first(descriptors, count as int);
            if reader::in_bounds(data, values_at, size) {
                (Some(InstanceView { template, descriptors, values_at }), values_at + size)
            } else {
                (None, values_at)
            }
        },
        None => (None, pos),
    }
}

/// The bytes of the `i`th value of an instance.
pub open spec fn value_bytes(data: Seq<u8>, instance: InstanceView, i: int) -> Seq<u8> {
    let start = instance.values_at + size_of_first(instance.descriptors, i);
    data.subrange(start, start + instance.descriptors[i].size)
}

struct Instance<'a> {
    template: usize,
    descriptors: Vec<Descriptor>,
    values_at: usize,
    values: &'a [u8],
}

impl<'a> Instance<'a> {
    closed spec fn shown(&self) -> InstanceView {
        InstanceView {
            template: self.template as int,
            descriptors: self.descriptors@,
            values_at: self.values_at as int,
        }
    }

    closed spec fn lies_in(&self, data: Seq<u8>) -> bool {
        let size = size_of_first(self.descriptors@, self.descriptors@.len() as int);
        &&& self.values_at + size <= data.len()
        &&& self.values@ == data.subrange(self.values_at as int, self.values_at + size)
        &&& self.descriptors@.len() <= MAX_VALUES
    }
}

proof fn lemma_sizes_grow(descriptors: Seq<Descriptor>, i: int, n: int)
    requires
        0 <= i <= n,
    ensures
        0 <= size_of_first(descriptors, i) <= size_of_first(descriptors, n) <= 0xFFFF * n,
    decreases n,
{
    if i < n {
        lemma_sizes_grow(descriptors, i, n - 1);
    } else if n > 0 {
        lemma_sizes_grow(descriptors, i - 1, n - 1);
    }
}

/// An instance ends behind its start, in its data.
pub proof fn lemma_instance_end(data: Seq<u8>, chunk: Seq<u8>, base: int, pos: int)
    requires
        0 <= pos <= data.len(),
    ensures
        pos <= instance_at(data, chunk, base, pos).1 <= data.len(),
{
    if let Some(template) = reader::u32_at(data, pos + 5) {
        if let Some(at) = after_definition(data, chunk, base, pos + 9, template as int) {
            if let Some(count) = reader::u32_at(data, at) {
                let descriptors = descriptors_at(data, at + 4, count as int);
                lemma_sizes_grow(descriptors, 0, count as int);
            }
        }
    }
}

fn read_descriptors(r: &mut Cursor, count: u32) -> (d: Option<Vec<Descriptor>>)
    requires
        count <= MAX_VALUES,
        old(r).pos <= old(r).data@.len(),
    ensures
        final(r).data@ == old(r).data@,
        match d {
            Some(d) => {
                &&& old(r).pos + 4 * count <= old(r).data@.len()
                &&& final(r).pos == old(r).pos + 4 * count
                &&& d@ == descriptors_at(old(r).data@, old(r).pos as int, count as int)
            },
            None => {
                &&& old(r).pos + 4 * count > old(r).data@.len()
                &&& final(r).pos == old(r).data@.len()
            },
        },
{
    let mut d: Vec<Descriptor> = Vec::new();
    let ghost start = r.pos as int;
    let ghost all = descriptors_at(r.data@, start, count as int);
    for i in 0..count
        invariant
            count <= MAX_VALUES,
            r.data@ == old(r).data@,
            start == old(r).pos,
            start + 4 * i <= r.data@.len(),
            r.pos == start + 4 * i,
            all == descriptors_at(r.data@, start, count as int),
            d@ == all.take(i as int),
    {
        let size = r.u16();
        let vtype = r.u8();
        let flags = r.u8();
        match (size, vtype, flags) {
            (Some(size), Some(vtype), Some(flags)) => {
                d.push(Descriptor { size, vtype, flags });
                assert(d@ =~= all.take(i + 1));
            },
            _ => {
                return None;
            },
        }
    }
    assert(all.take(count as int) =~= all);
    Some(d)
}

fn total_size(d: &Vec<Descriptor>) -> (n: usize)
    requires
        d@.len() <= MAX_VALUES,
    ensures
        n == size_of_first(d@, d@.len() as int),
{
    let mut n: usize = 0;
    for i in 0..d.len()
        invariant
            d@.len() <= MAX_VALUES,
            n == size_of_first(d@, i as int),
            n <= 0xFFFF * i,
    {
        n = n + d[i].size as usize;
    }
    n
}

fn read_values<'a>(r: &mut Cursor<'a>, template: usize) -> (v: Option<Instance<'a>>)
    requires
        old(r).pos <= old(r).data@.len(),
    ensures
        final(r).data@ == old(r).data@,
        final(r).pos == values_of(old(r).data@, old(r).pos as int, template as int).1,
        match v {
            Some(v) => {
                &&& values_of(old(r).data@, old(r).pos as int, template as int).0 == Some(v.shown())
                &&& v.lies_in(old(r).data@)
            },
            None => values_of(old(r).data@, old(r).pos as int, template as int).0 is None,
        },
{
    let count: u32 = match r.u32() {
        Some(count) => count,
        None => {
            return None;
        },
    };
    if count > MAX_VALUES {
        return None;
    }
    let descriptors = match read_descriptors(r, count) {
        Some(descriptors) => descriptors,
        None => {
            return None;
        },
    };
    let values_at = r.pos;
    let size = total_size(&descriptors);
    match r.read(size) {
        Some(values) => Some(Instance { template, descriptors, values_at, values }),
        None => None,
    }
}

fn read_instance<'a>(r: &mut Cursor<'a>, chunk: &[u8], base: usize) -> (v: Option<Instance<'a>>)
    requires
        old(r).pos <= old(r).data@.len(),
    ensures
        final(r).data@ == old(r).data@,
        final(r).pos == instance_at(old(r).data@, chunk@, base as int, old(r).pos as int).1,
        match v {
            Some(v) => {
                &&& instance_at(old(r).data@, chunk@, base as int, old(r).pos as int).0 == Some(
                    v.shown(),
                )
                &&& v.lies_in(old(r).data@)
            },
            None => instance_at(old(r).data@, chunk@, base as int, old(r).pos as int).0 is None,
        },
{
    if r.u8().is_none() {
        return None;
    }
    if !r.skip(4) {
        return None;
    }
    let template: usize = match r.u32() {
        Some(template) => template as usize,
        None => {
            return None;
        },
    };
    let inline = match base.checked_add(r.pos) {
        Some(here) => template == here,
        None => false,
    };
    if inline {
        if let Some(_) = Reader::new(chunk).slice(template, 24) {
            if let Some(size) = Reader::new(chunk).u32(template + 20) {
                if !r.skip((size as usize).saturating_add(24)) {
                    return None;
                }
            }
        }
    }
    read_values(r, template)
}

// ---------------------------------------------------------------------
// Names of values
// ---------------------------------------------------------------------

/// The fields of the System element by their usual place, for instances whose
/// template cannot be loaded.
pub open spec fn system_name(id: int) -> Option<Seq<char>> {
    if id == 0 {
        Some("Provider"@)
    } else if id == 1 {
        Some("ProviderGuid"@)
    } else if id == 2 {
        Some("Qualifiers"@)
    } else if id == 3 {
        Some("EventID"@)
    } else if id == 4 {
        Some("Version"@)
    } else if id == 5 {
        Some("Level"@)
    } else if id == 6 {
        Some("Task"@)
    } else if id == 7 {
        Some("Opcode"@)
    } else if id == 8 {
        Some("Keywords"@)
    } else if id == 9 {
        Some("TimeCreated"@)
    } else if id == 10 {
        Some("EventRecordID"@)
    } else if id == 11 {
        Some("ActivityID"@)
    } else if id == 12 {
        Some("RelatedActivityID"@)
    } else if id == 13 {
        Some("ProcessID"@)
    } else if id == 14 {
        Some("ThreadID"@)
    } else if id == 15 {
        Some("Channel"@)
    } else if id == 16 {
        Some("Computer"@)
    } else if id == 17 {
        Some("UserID"@)
    } else {
        None
    }
}

fn system_subst(id: u16) -> (r: Option<&'static str>)
    ensures
        r is Some == system_name(id as int) is Some,
        r matches Some(name) ==> name@ == system_name(id as int)->0,
{
    match id {
        0 => Some("Provider"),
        1 => Some("ProviderGuid"),
        2 => Some("Qualifiers"),
        3 => Some("EventID"),
        4 => Some("Version"),
        5 => Some("Level"),
        6 => Some("Task"),
        7 => Some("Opcode"),
        8 => Some("Keywords"),
        9 => Some("TimeCreated"),
        10 => Some("EventRecordID"),
        11 => Some("ActivityID"),
        12 => Some("RelatedActivityID"),
        13 => Some("ProcessID"),
        14 => Some("ThreadID"),
        15 => Some("Channel"),
        16 => Some("Computer"),
        17 => Some("UserID"),
        _ => None,
    }
}

/// The name that a template has for the value at a place.
pub open spec fn template_name(template: template::TemplateView, id: int) -> Option<Seq<char>> {
    if template.field_map.contains_key(id as u16) {
        Some(template.field_map[id as u16])
    } else {
        None
    }
}

/// The name of the value at a place of a nested instance.
pub open spec fn nested_name(chunk: Seq<u8>, template: int, id: int) -> Option<Seq<char>> {
    match template::template_at(chunk, template) {
        Some(template) => template_name(template, id),
        None => None,
    }
}

/// The name of the value at a place of an instance: the template's, or the
/// usual one where the template cannot be loaded at all.
pub open spec fn value_name(chunk: Seq<u8>, template: int, id: int) -> Option<Seq<char>> {
    match template::template_at(chunk, template) {
        Some(template) => template_name(template, id),
        None => system_name(id),
    }
}

fn find_name(
    chunk: &[u8],
    cache: &mut TemplateCache,
    template: usize,
    id: u16,
    usual: bool,
) -> (r: Option<String>)
    requires
        old(cache).holds(chunk@),
    ensures
        final(cache).holds(chunk@),
        final(cache).loaded_since(old(cache), template::loadable(chunk@, template as int)),
        crate::timeline::text_of(r) == if usual {
            value_name(chunk@, template as int, id as int)
        } else {
            nested_name(chunk@, template as int, id as int)
        },
{
    match cache.load(chunk, template) {
        Some(info) => match info.field_map.get(&id) {
            Some(name) => Some(name.clone()),
            None => None,
        },
        None => if usual {
            match system_subst(id) {
                Some(name) => Some(name.to_string()),
                None => None,
            }
        } else {
            None
        },
    }
}

// ---------------------------------------------------------------------
// Fields of an instance
// ---------------------------------------------------------------------

/// Whether a name is short enough for a field.
pub open spec fn is_short(name: Seq<char>) -> bool {
    encode_utf8(name).len() <= MAX_NAME_LEN
}

/// Whether a name is short enough for a field.
pub fn short(name: &str) -> (r: bool)
    ensures
        r == is_short(name@),
{
    name.as_bytes().len() <= MAX_NAME_LEN
}

/// Fields with a value under a name, where it has one. Empty values and values
/// with too long a name are left out, and long values are cut.
pub open spec fn with_value(
    fields: Map<Seq<char>, Seq<char>>,
    name: Option<Seq<char>>,
    value: Seq<char>,
) -> Map<Seq<char>, Seq<char>> {
    match name {
        Some(name) => if value.len() > 0 && is_short(name) {
            fields.insert(name, text::clipped(value, MAX_FIELD_LEN as nat))
        } else {
            fields
        },
        None => fields,
    }
}

fn add_value(fields: &mut FieldMap, name: Option<String>, data: &[u8], vtype: u8)
    ensures
        final(fields)@ == with_value(
            old(fields)@,
            crate::timeline::text_of(name),
            values::value_text(data@, vtype),
        ),
{
    if let Some(name) = name {
        let value = values::decode_value(data, vtype);
        if !value.as_str().is_empty() && short(name.as_str()) {
            fields.insert(name, text::clip(value.as_str(), MAX_FIELD_LEN));
        }
    }
}

/// Fields with the first `n` values of a nested instance.
pub open spec fn with_nested_values(
    data: Seq<u8>,
    chunk: Seq<u8>,
    instance: InstanceView,
    n: int,
    fields: Map<Seq<char>, Seq<char>>,
) -> Map<Seq<char>, Seq<char>>
    decreases n,
{
    if n <= 0 {
        fields
    } else {
        let before = with_nested_values(data, chunk, instance, n - 1, fields);
        let d = instance.descriptors[n - 1];
        if d.is_set() {
            with_value(
                before,
                nested_name(chunk, instance.template, n - 1),
                values::value_text(value_bytes(data, instance, n - 1), d.vtype),
            )
        } else {
            before
        }
    }
}

/// Where the token of a nested instance stands, behind a fragment header if
/// there is one.
pub open spec fn nested_start(data: Seq<u8>) -> int {
    if reader::byte_at(data, 0) == Some(TOK_FRAG_HDR) {
        reader::skipped(data.len(), 0, 4)
    } else {
        0
    }
}

/// Fields with those of a value that is BinXML itself, where it is an instance.
pub open spec fn with_nested(
    data: Seq<u8>,
    chunk: Seq<u8>,
    base: int,
    fields: Map<Seq<char>, Seq<char>>,
) -> Map<Seq<char>, Seq<char>> {
    let pos = nested_start(data);
    if reader::byte_at(data, pos) != Some(TOK_TMPL_INST) {
        fields
    } else {
        match instance_at(data, chunk, base, pos + 1).0 {
            Some(instance) => with_nested_values(
                data,
                chunk,
                instance,
                instance.descriptors.len() as int,
                fields,
            ),
            None => fields,
        }
    }
}

/// The definitions that a value which is BinXML itself loads: its template's,
/// where it is a complete instance.
pub open spec fn nested_loads(data: Seq<u8>, chunk: Seq<u8>, base: int) -> Set<usize> {
    let pos = nested_start(data);
    if reader::byte_at(data, pos) != Some(TOK_TMPL_INST) {
        Set::empty()
    } else {
        match instance_at(data, chunk, base, pos + 1).0 {
            Some(instance) => template::loadable(chunk, instance.template),
            None => Set::empty(),
        }
    }
}

/// The definitions that the first `n` values of an instance load.
pub open spec fn value_loads(
    data: Seq<u8>,
    chunk: Seq<u8>,
    base: int,
    instance: InstanceView,
    n: int,
) -> Set<usize>
    decreases n,
{
    if n <= 0 {
        Set::empty()
    } else {
        let before = value_loads(data, chunk, base, instance, n - 1);
        let d = instance.descriptors[n - 1];
        if d.is_set() && d.vtype == values::VT_BXML {
            before.union(
                nested_loads(
                    value_bytes(data, instance, n - 1),
                    chunk,
                    base + instance.values_at + size_of_first(instance.descriptors, n - 1),
                ),
            )
        } else {
            before
        }
    }
}

/// The definitions that an instance loads: its template's, whatever its values
/// are, and those of the instances in its values.
pub open spec fn instance_loads(data: Seq<u8>, chunk: Seq<u8>, base: int, instance: InstanceView) -> Set<
    usize,
> {
    template::loadable(chunk, instance.template).union(
        value_loads(data, chunk, base, instance, instance.descriptors.len() as int),
    )
}

/// An instance whose data starts past the last offset that a machine holds is
/// read the same wherever that is.
proof fn lemma_far_base(data: Seq<u8>, chunk: Seq<u8>, a: int, b: int, pos: int)
    requires
        a >= usize::MAX,
        b >= usize::MAX,
        pos >= 0,
    ensures
        instance_at(data, chunk, a, pos) == instance_at(data, chunk, b, pos),
{
}

/// Fields with the first `n` values of an instance.
pub open spec fn with_values(
    data: Seq<u8>,
    chunk: Seq<u8>,
    base: int,
    instance: InstanceView,
    n: int,
    fields: Map<Seq<char>, Seq<char>>,
) -> Map<Seq<char>, Seq<char>>
    decreases n,
{
    if n <= 0 {
        fields
    } else {
        let before = with_values(data, chunk, base, instance, n - 1, fields);
        let d = instance.descriptors[n - 1];
        let bytes = value_bytes(data, instance, n - 1);
        if !d.is_set() {
            before
        } else if d.vtype == values::VT_BXML {
            with_nested(
                bytes,
                chunk,
                base + instance.values_at + size_of_first(instance.descriptors, n - 1),
                before,
            )
        } else {
            with_value(
                before,
                value_name(chunk, instance.template, n - 1),
                values::value_text(bytes, d.vtype),
            )
        }
    }
}

/// Fields with those of an instance: its values, and what is fixed in its
/// template where nothing else has the name.
pub open spec fn with_instance(
    data: Seq<u8>,
    chunk: Seq<u8>,
    base: int,
    instance: InstanceView,
    fields: Map<Seq<char>, Seq<char>>,
) -> Map<Seq<char>, Seq<char>> {
    let all = with_values(
        data,
        chunk,
        base,
        instance,
        instance.descriptors.len() as int,
        fields,
    );
    match template::template_at(chunk, instance.template) {
        Some(template) => fields::with_missing(
            all,
            template.literal_fields,
            MAX_FIELD_LEN as nat,
        ),
        None => all,
    }
}

fn parse_bxml_blob(
    blob: &[u8],
    chunk: &[u8],
    base: usize,
    cache: &mut TemplateCache,
    fields: &mut FieldMap,
)
    requires
        old(cache).holds(chunk@),
    ensures
        final(cache).holds(chunk@),
        final(cache).loaded_since(old(cache), nested_loads(blob@, chunk@, base as int)),
        reader::byte_at(blob@, nested_start(blob@)) != Some(TOK_TMPL_INST) ==> *final(cache)
            == *old(cache),
        instance_at(blob@, chunk@, base as int, nested_start(blob@) + 1).0 is None ==> *final(cache)
            == *old(cache),
        final(fields)@ == with_nested(blob@, chunk@, base as int, old(fields)@),
{
    proof {
        template::lemma_nothing_loaded(*cache);
    }
    let mut r = Cursor::new(blob);
    if r.peek() == Some(TOK_FRAG_HDR) {
        r.skip(4);
    }
    if r.u8() != Some(TOK_TMPL_INST) {
        return ;
    }
    let instance = match read_instance(&mut r, chunk, base) {
        Some(instance) => instance,
        None => {
            return ;
        },
    };
    let ghost shown = instance.shown();
    let ghost own = template::loadable(chunk@, shown.template);
    cache.load(chunk, instance.template);
    let mut start: usize = 0;
    for i in 0..instance.descriptors.len()
        invariant
            instance.shown() == shown,
            instance.lies_in(blob@),
            own == template::loadable(chunk@, shown.template),
            cache.holds(chunk@),
            cache.loaded_since(old(cache), own),
            start == size_of_first(instance.descriptors@, i as int),
            fields@ == with_nested_values(blob@, chunk@, shown, i as int, old(fields)@),
    {
        let d = instance.descriptors[i];
        proof {
            lemma_sizes_grow(
                instance.descriptors@,
                i + 1,
                instance.descriptors@.len() as int,
            );
        }
        let end: usize = start + d.size as usize;
        let data = &instance.values[start..end];
        assert(data@ =~= value_bytes(blob@, shown, i as int));
        start = end;
        if d.flags & FLAG_NULL == 0 && d.size != 0 {
            let ghost earlier = *cache;
            let name = find_name(chunk, cache, instance.template, i as u16, false);
            add_value(fields, name, data, d.vtype);
            proof {
                template::lemma_loaded_again(*old(cache), earlier, *cache, own, own);
                assert(own.union(own) =~= own);
            }
        }
    }
}

fn apply_values<'a>(
    instance: &Instance<'a>,
    chunk: &[u8],
    base: usize,
    cache: &mut TemplateCache,
    fields: &mut FieldMap,
    Ghost(whole): Ghost<Seq<u8>>,
)
    requires
        instance.lies_in(whole),
        old(cache).holds(chunk@),
    ensures
        final(cache).holds(chunk@),
        final(cache).loaded_since(
            old(cache),
            instance_loads(whole, chunk@, base as int, instance.shown()),
        ),
        final(fields)@ == with_values(
            whole,
            chunk@,
            base as int,
            instance.shown(),
            instance.shown().descriptors.len() as int,
            old(fields)@,
        ),
{
    let ghost shown = instance.shown();
    let ghost own = template::loadable(chunk@, shown.template);
    let ghost none = value_loads(whole, chunk@, base as int, shown, 0);
    assert(own.union(none) =~= own);
    cache.load(chunk, instance.template);
    let mut start: usize = 0;
    for i in 0..instance.descriptors.len()
        invariant
            instance.shown() == shown,
            instance.lies_in(whole),
            own == template::loadable(chunk@, shown.template),
            cache.holds(chunk@),
            cache.loaded_since(
                old(cache),
                own.union(value_loads(whole, chunk@, base as int, shown, i as int)),
            ),
            start == size_of_first(instance.descriptors@, i as int),
            fields@ == with_values(whole, chunk@, base as int, shown, i as int, old(fields)@),
    {
        let d = instance.descriptors[i];
        proof {
            lemma_sizes_grow(
                instance.descriptors@,
                i + 1,
                instance.descriptors@.len() as int,
            );
        }
        let end: usize = start + d.size as usize;
        let data = &instance.values[start..end];
        assert(data@ =~= value_bytes(whole, shown, i as int));
        let at: usize = base.saturating_add(instance.values_at).saturating_add(start);
        let ghost place = base + shown.values_at + size_of_first(shown.descriptors, i as int);
        start = end;
        if d.flags & FLAG_NULL == 0 && d.size != 0 {
            let ghost earlier = *cache;
            let ghost before = own.union(
                value_loads(whole, chunk@, base as int, shown, i as int),
            );
            if d.vtype == values::VT_BXML {
                proof {
                    if place >= usize::MAX {
                        lemma_far_base(data@, chunk@, at as int, place, nested_start(data@) + 1);
                    }
                }
                parse_bxml_blob(data, chunk, at, cache, fields);
                proof {
                    let more = nested_loads(data@, chunk@, place);
                    template::lemma_loaded_again(*old(cache), earlier, *cache, before, more);
                    assert(before.union(more) =~= own.union(
                        value_loads(whole, chunk@, base as int, shown, i + 1),
                    ));
                }
            } else {
                let name = find_name(chunk, cache, instance.template, i as u16, true);
                add_value(fields, name, data, d.vtype);
                proof {
                    template::lemma_loaded_again(*old(cache), earlier, *cache, before, own);
                    assert(before.union(own) =~= before);
                }
            }
        }
    }
}

/// Reads the instance at the cursor and adds its fields.
pub(crate) fn apply_template_instance(
    r: &mut Cursor,
    chunk: &[u8],
    cache: &mut TemplateCache,
    fields: &mut FieldMap,
    base: usize,
)
    requires
        old(r).pos <= old(r).data@.len(),
        old(cache).holds(chunk@),
    ensures
        final(cache).holds(chunk@),
        final(cache).loaded_since(
            old(cache),
            match instance_at(old(r).data@, chunk@, base as int, old(r).pos as int).0 {
                Some(instance) => instance_loads(old(r).data@, chunk@, base as int, instance),
                None => Set::empty(),
            },
        ),
        final(r).data@ == old(r).data@,
        final(r).pos == instance_at(old(r).data@, chunk@, base as int, old(r).pos as int).1,
        instance_at(old(r).data@, chunk@, base as int, old(r).pos as int).0 is None
            ==> *final(cache) == *old(cache),
        final(fields)@ == match instance_at(
            old(r).data@,
            chunk@,
            base as int,
            old(r).pos as int,
        ).0 {
            Some(instance) => with_instance(
                old(r).data@,
                chunk@,
                base as int,
                instance,
                old(fields)@,
            ),
            None => old(fields)@,
        },
{
    let ghost whole = r.data@;
    proof {
        template::lemma_nothing_loaded(*cache);
    }
    let instance = match read_instance(r, chunk, base) {
        Some(instance) => instance,
        None => {
            return ;
        },
    };
    apply_values(&instance, chunk, base, cache, fields, Ghost(whole));
    let ghost earlier = *cache;
    let ghost loads = instance_loads(whole, chunk@, base as int, instance.shown());
    if let Some(info) = cache.load(chunk, instance.template) {
        fields.add_missing(&info.literal_fields, MAX_FIELD_LEN);
    }
    proof {
        let own = template::loadable(chunk@, instance.shown().template);
        template::lemma_loaded_again(*old(cache), earlier, *cache, loads, own);
        assert(loads.union(own) =~= loads);
    }
}

// ---------------------------------------------------------------------
// Laws
// ---------------------------------------------------------------------

/// The value at a place of an instance is the value of the field that the
/// template names for the place, if no later value has that name or brings
/// fields of its own.
pub proof fn law_value_takes_its_place(
    data: Seq<u8>,
    chunk: Seq<u8>,
    base: int,
    instance: InstanceView,
    place: int,
    name: Seq<char>,
    fields: Map<Seq<char>, Seq<char>>,
)
    requires
        0 <= place < instance.descriptors.len(),
        instance.descriptors[place].is_set(),
        instance.descriptors[place].vtype != values::VT_BXML,
        value_name(chunk, instance.template, place) == Some(name),
        is_short(name),
        values::value_text(
            value_bytes(data, instance, place),
            instance.descriptors[place].vtype,
        ).len() > 0,
        forall|i: int|
            place < i < instance.descriptors.len() && (#[trigger] instance.descriptors[i]).is_set()
                ==> instance.descriptors[i].vtype != values::VT_BXML && value_name(
                chunk,
                instance.template,
                i,
            ) != Some(name),
    ensures
        ({
            let value = values::value_text(
                value_bytes(data, instance, place),
                instance.descriptors[place].vtype,
            );
            let found = with_instance(data, chunk, base, instance, fields);
            found.contains_key(name) && found[name] == text::clipped(value, MAX_FIELD_LEN as nat)
        }),
{
    let n = instance.descriptors.len() as int;
    lemma_value_stays(data, chunk, base, instance, place, n, name, fields);
}

proof fn lemma_value_stays(
    data: Seq<u8>,
    chunk: Seq<u8>,
    base: int,
    instance: InstanceView,
    place: int,
    n: int,
    name: Seq<char>,
    fields: Map<Seq<char>, Seq<char>>,
)
    requires
        0 <= place < n <= instance.descriptors.len(),
        instance.descriptors[place].is_set(),
        instance.descriptors[place].vtype != values::VT_BXML,
        value_name(chunk, instance.template, place) == Some(name),
        is_short(name),
        values::value_text(
            value_bytes(data, instance, place),
            instance.descriptors[place].vtype,
        ).len() > 0,
        forall|i: int|
            place < i < n && (#[trigger] instance.descriptors[i]).is_set()
                ==> instance.descriptors[i].vtype != values::VT_BXML && value_name(
                chunk,
                instance.template,
                i,
            ) != Some(name),
    ensures
        ({
            let value = values::value_text(
                value_bytes(data, instance, place),
                instance.descriptors[place].vtype,
            );
            let found = with_values(data, chunk, base, instance, n, fields);
            found.contains_key(name) && found[name] == text::clipped(value, MAX_FIELD_LEN as nat)
        }),
    decreases n,
{
    if place < n - 1 {
        lemma_value_stays(data, chunk, base, instance, place, n - 1, name, fields);
        assert(instance.descriptors[n - 1].is_set() ==> instance.descriptors[n - 1].vtype
            != values::VT_BXML);
    }
}

// ---------------------------------------------------------------------
// Lengths of values
// ---------------------------------------------------------------------

/// Whether every value has a character, and none more than are kept.
pub open spec fn has_lengths(fields: Map<Seq<char>, Seq<char>>) -> bool {
    forall|k: Seq<char>| #[trigger]
        fields.contains_key(k) ==> 1 <= fields[k].len() <= MAX_FIELD_LEN
}

proof fn lemma_nested_lengths(
    data: Seq<u8>,
    chunk: Seq<u8>,
    instance: InstanceView,
    n: int,
    fields: Map<Seq<char>, Seq<char>>,
)
    requires
        has_lengths(fields),
    ensures
        has_lengths(with_nested_values(data, chunk, instance, n, fields)),
    decreases n,
{
    if n > 0 {
        lemma_nested_lengths(data, chunk, instance, n - 1, fields);
    }
}

proof fn lemma_values_lengths(
    data: Seq<u8>,
    chunk: Seq<u8>,
    base: int,
    instance: InstanceView,
    n: int,
    fields: Map<Seq<char>, Seq<char>>,
)
    requires
        has_lengths(fields),
    ensures
        has_lengths(with_values(data, chunk, base, instance, n, fields)),
    decreases n,
{
    if n > 0 {
        lemma_values_lengths(data, chunk, base, instance, n - 1, fields);
        let before = with_values(data, chunk, base, instance, n - 1, fields);
        let bytes = value_bytes(data, instance, n - 1);
        let at = base + instance.values_at + size_of_first(instance.descriptors, n - 1);
        if let Some(nested) = instance_at(bytes, chunk, at, nested_start(bytes) + 1).0 {
            lemma_nested_lengths(bytes, chunk, nested, nested.descriptors.len() as int, before);
        }
    }
}

/// An instance adds no empty value, and none with more characters than are kept.
pub proof fn lemma_instance_lengths(
    data: Seq<u8>,
    chunk: Seq<u8>,
    base: int,
    instance: InstanceView,
    fields: Map<Seq<char>, Seq<char>>,
)
    requires
        has_lengths(fields),
    ensures
        has_lengths(with_instance(data, chunk, base, instance, fields)),
{
    lemma_values_lengths(data, chunk, base, instance, instance.descriptors.len() as int, fields);
    if template::template_at(chunk, instance.template) is Some {
        template::law_literals_are_not_empty(chunk, instance.template);
    }
}

} // verus!
