//! Template definitions: what the values of a template instance are called.

use std::collections::HashMap;

use vstd::prelude::*;

use super::super::reader;
use super::super::reader::{Cursor, Reader};
use super::fields::FieldMap;
use super::values;
use crate::text;

verus! {

broadcast use vstd::std_specs::hash::group_hash_axioms;

pub const TOK_EOF: u8 = 0x00;

pub const TOK_OPEN_ELEM: u8 = 0x01;

pub const TOK_CLOSE_ELEM: u8 = 0x02;

pub const TOK_CLOSE_EMPTY: u8 = 0x03;

pub const TOK_END_ELEM: u8 = 0x04;

pub const TOK_VALUE: u8 = 0x05;

pub const TOK_ATTR: u8 = 0x06;

pub const TOK_TMPL_INST: u8 = 0x0C;

pub const TOK_NORM_SUBST: u8 = 0x0D;

pub const TOK_OPT_SUBST: u8 = 0x0E;

pub const TOK_FRAG_HDR: u8 = 0x0F;


/// The bytes in front of the BinXML of a template definition.
pub const TEMPLATE_HEADER_SIZE: usize = 24;

/// What a template says: the names of its substitutions, and the fields whose
/// values stand in it.
#[verifier::ext_equal]
pub struct TemplateView {
    pub field_map: Map<u16, Seq<char>>,
    pub literal_fields: Map<Seq<char>, Seq<char>>,
}

/// The names and the fixed fields of a template.
pub struct TemplateInfo {
    pub field_map: HashMap<u16, String>,
    pub literal_fields: FieldMap,
}

impl View for TemplateInfo {
    type V = TemplateView;

    open spec fn view(&self) -> TemplateView {
        TemplateView {
            field_map: self.field_map@.map_values(|s: String| s@),
            literal_fields: self.literal_fields@,
        }
    }
}

// ---------------------------------------------------------------------
// Names by context
// ---------------------------------------------------------------------

/// The field that stands in an element (where `attr` is empty) or in an
/// attribute of it.
pub open spec fn context_name(elem: Seq<char>, attr: Seq<char>) -> Option<Seq<char>> {
    if elem == "Provider"@ && attr == "Name"@ {
        Some("Provider"@)
    } else if elem == "Provider"@ && attr == "Guid"@ {
        Some("ProviderGuid"@)
    } else if elem == "EventID"@ && attr == "Qualifiers"@ {
        Some("Qualifiers"@)
    } else if elem == "TimeCreated"@ && attr == "SystemTime"@ {
        Some("TimeCreated"@)
    } else if elem == "Execution"@ && attr == "ProcessID"@ {
        Some("ProcessID"@)
    } else if elem == "Execution"@ && attr == "ThreadID"@ {
        Some("ThreadID"@)
    } else if elem == "Correlation"@ && attr == "ActivityID"@ {
        Some("ActivityID"@)
    } else if elem == "Security"@ && attr == "UserID"@ {
        Some("UserID"@)
    } else if attr.len() == 0 && is_system_element(elem) {
        Some(elem)
    } else {
        None
    }
}

/// The elements whose content is a field of their own name.
pub open spec fn is_system_element(elem: Seq<char>) -> bool {
    ||| elem == "EventID"@
    ||| elem == "Level"@
    ||| elem == "Task"@
    ||| elem == "Opcode"@
    ||| elem == "Keywords"@
    ||| elem == "EventRecordID"@
    ||| elem == "Channel"@
    ||| elem == "Computer"@
    ||| elem == "Version"@
}

fn system_element(elem: &str) -> (r: bool)
    ensures
        r == is_system_element(elem@),
{
    text::same_text(elem, "EventID") || text::same_text(elem, "Level") || text::same_text(
        elem,
        "Task",
    ) || text::same_text(elem, "Opcode") || text::same_text(elem, "Keywords") || text::same_text(
        elem,
        "EventRecordID",
    ) || text::same_text(elem, "Channel") || text::same_text(elem, "Computer") || text::same_text(
        elem,
        "Version",
    )
}

/// The field that stands in an element (where `attr` is empty) or in an
/// attribute of it.
pub fn subst_context_name(elem: &str, attr: &str) -> (r: Option<String>)
    ensures
        crate::timeline::text_of(r) == context_name(elem@, attr@),
{
    if text::same_text(elem, "Provider") && text::same_text(attr, "Name") {
        Some("Provider".to_string())
    } else if text::same_text(elem, "Provider") && text::same_text(attr, "Guid") {
        Some("ProviderGuid".to_string())
    } else if text::same_text(elem, "EventID") && text::same_text(attr, "Qualifiers") {
        Some("Qualifiers".to_string())
    } else if text::same_text(elem, "TimeCreated") && text::same_text(attr, "SystemTime") {
        Some("TimeCreated".to_string())
    } else if text::same_text(elem, "Execution") && text::same_text(attr, "ProcessID") {
        Some("ProcessID".to_string())
    } else if text::same_text(elem, "Execution") && text::same_text(attr, "ThreadID") {
        Some("ThreadID".to_string())
    } else if text::same_text(elem, "Correlation") && text::same_text(attr, "ActivityID") {
        Some("ActivityID".to_string())
    } else if text::same_text(elem, "Security") && text::same_text(attr, "UserID") {
        Some("UserID".to_string())
    } else if attr.is_empty() && system_element(elem) {
        Some(elem.to_string())
    } else {
        None
    }
}

// ---------------------------------------------------------------------
// Walking a definition
// ---------------------------------------------------------------------

/// The walk over a definition: the position, the open elements, the attribute
/// and the name of a `Data` element that wait for a value, and what was found.
#[verifier::ext_equal]
pub struct TemplateState {
    pub pos: int,
    pub stack: Seq<Seq<char>>,
    pub attr: Seq<char>,
    pub data_name: Seq<char>,
    pub found: TemplateView,
}

/// The innermost open element, empty where there is none.
pub open spec fn innermost(stack: Seq<Seq<char>>) -> Seq<char> {
    if stack.len() == 0 {
        seq![]
    } else {
        stack.last()
    }
}

/// The open elements without the innermost.
pub open spec fn closed(stack: Seq<Seq<char>>) -> Seq<Seq<char>> {
    if stack.len() == 0 {
        stack
    } else {
        stack.drop_last()
    }
}

/// Where the walk goes on behind a reference to a name at `name_off`: a name
/// that was not used before stands right there, and is stepped over. `base` is
/// where `data` starts in the chunk.
pub open spec fn after_name(data: Seq<u8>, chunk: Seq<u8>, base: int, pos: int, name_off: int) -> int {
    if name_off >= base + pos && name_off + 8 <= chunk.len() {
        reader::skipped(data.len(), pos, 10 + 2 * reader::u16_at(chunk, name_off + 6)->0)
    } else {
        pos
    }
}

impl TemplateState {
    /// Behind the token that opens an element.
    pub open spec fn open(self, data: Seq<u8>, chunk: Seq<u8>, base: int, more: bool) -> Option<
        TemplateState,
    > {
        let at = reader::skipped(data.len(), reader::skipped(data.len(), self.pos, 2), 4);
        match reader::u32_at(data, at) {
            Some(name_off) => {
                let named = after_name(data, chunk, base, at + 4, name_off as int);
                Some(
                    TemplateState {
                        pos: if more {
                            reader::skipped(data.len(), named, 4)
                        } else {
                            named
                        },
                        stack: self.stack.push(values::name_at(chunk, name_off as int)),
                        data_name: seq![],
                        ..self
                    },
                )
            },
            None => None,
        }
    }

    /// Behind the token of an attribute.
    pub open spec fn attribute(self, data: Seq<u8>, chunk: Seq<u8>, base: int) -> Option<
        TemplateState,
    > {
        match reader::u32_at(data, self.pos) {
            Some(name_off) => Some(
                TemplateState {
                    pos: after_name(data, chunk, base, self.pos + 4, name_off as int),
                    attr: values::name_at(chunk, name_off as int),
                    ..self
                },
            ),
            None => None,
        }
    }

    /// Behind a value: it names the `Data` element whose `Name` it is, or is
    /// the value of a field.
    pub open spec fn value(self, val: Seq<char>, pos: int) -> TemplateState {
        let next = TemplateState { pos, attr: seq![], ..self };
        if self.attr == "Name"@ && self.stack.len() > 0 && self.stack.last() == "Data"@ {
            TemplateState { data_name: val, ..next }
        } else if val.len() > 0 && self.stack.len() > 0 && self.attr.len() == 0 {
            match context_name(self.stack.last(), seq![]) {
                Some(name) => TemplateState {
                    found: TemplateView {
                        literal_fields: self.found.literal_fields.insert(name, val),
                        ..self.found
                    },
                    ..next
                },
                None => next,
            }
        } else {
            next
        }
    }

    /// Behind a substitution.
    pub open spec fn substitution(self, id: u16, pos: int) -> TemplateState {
        let next = TemplateState { pos, attr: seq![], ..self };
        let elem = innermost(self.stack);
        let name = if elem == "Data"@ && self.data_name.len() > 0 {
            Some(self.data_name)
        } else {
            context_name(elem, self.attr)
        };
        match name {
            Some(name) => TemplateState {
                found: TemplateView {
                    field_map: self.found.field_map.insert(id, name),
                    ..self.found
                },
                ..next
            },
            None => next,
        }
    }

    /// Behind the next token and what belongs to it, `None` where the
    /// definition ends.
    pub open spec fn next(self, data: Seq<u8>, chunk: Seq<u8>, base: int) -> Option<TemplateState> {
        let tok = data[self.pos];
        let pos = self.pos + 1;
        let behind = TemplateState { pos, ..self };
        if tok == TOK_EOF {
            None
        } else if tok == TOK_FRAG_HDR {
            Some(TemplateState { pos: reader::skipped(data.len(), pos, 3), ..self })
        } else if tok == TOK_OPEN_ELEM || tok == 0x41 {
            behind.open(data, chunk, base, tok == 0x41)
        } else if tok == TOK_CLOSE_EMPTY || tok == TOK_END_ELEM {
            Some(TemplateState { stack: closed(self.stack), ..behind })
        } else if tok == TOK_ATTR || tok == 0x46 {
            behind.attribute(data, chunk, base)
        } else if tok == TOK_VALUE {
            match reader::byte_at(data, pos) {
                Some(vtype) => {
                    let (val, end) = values::value_at(data, pos + 1, vtype);
                    Some(self.value(val, end))
                },
                None => None,
            }
        } else if tok == TOK_NORM_SUBST || tok == TOK_OPT_SUBST || tok == 0x4D || tok == 0x4E {
            match (reader::u16_at(data, pos), reader::byte_at(data, pos + 2)) {
                (Some(id), Some(_)) => Some(self.substitution(id, pos + 3)),
                _ => None,
            }
        } else {
            Some(behind)
        }
    }
}

/// What the rest of a definition, from a state on, says.
pub open spec fn template_from(data: Seq<u8>, chunk: Seq<u8>, base: int, state: TemplateState) -> TemplateView
    decreases data.len() - state.pos,
{
    if 0 <= state.pos < data.len() {
        match state.next(data, chunk, base) {
            Some(next) => if next.pos > state.pos {
                template_from(data, chunk, base, next)
            } else {
                next.found
            },
            None => state.found,
        }
    } else {
        state.found
    }
}

/// The start of the walk.
pub open spec fn template_start() -> TemplateState {
    TemplateState {
        pos: 0,
        stack: seq![],
        attr: seq![],
        data_name: seq![],
        found: TemplateView { field_map: Map::empty(), literal_fields: Map::empty() },
    }
}

/// What the BinXML of a definition says, which starts at `base` of the chunk.
pub open spec fn template_of(data: Seq<u8>, chunk: Seq<u8>, base: int) -> TemplateView {
    template_from(data, chunk, base, template_start())
}

struct TemplateWalk {
    stack: Vec<String>,
    attr: String,
    data_name: String,
    info: TemplateInfo,
}

impl TemplateWalk {
    closed spec fn state(&self, pos: int) -> TemplateState {
        TemplateState {
            pos,
            stack: text::texts(self.stack@),
            attr: self.attr@,
            data_name: self.data_name@,
            found: self.info@,
        }
    }

    fn new() -> (r: TemplateWalk)
        ensures
            r.state(0) == template_start(),
    {
        let r = TemplateWalk {
            stack: Vec::new(),
            attr: String::new(),
            data_name: String::new(),
            info: TemplateInfo { field_map: HashMap::new(), literal_fields: FieldMap::new() },
        };
        assert(r.state(0) =~= template_start()) by {
            assert(text::texts(r.stack@) =~= seq![]);
            assert(r.info@.field_map =~= Map::empty());
        }
        r
    }

    fn open(&mut self, r: &mut Cursor, chunk: &[u8], base: usize, more: bool) -> (ok: bool)
        requires
            old(r).pos <= old(r).data@.len(),
        ensures
            final(r).data@ == old(r).data@,
            match old(self).state(old(r).pos as int).open(old(r).data@, chunk@, base as int, more) {
                Some(next) => ok && final(self).state(final(r).pos as int) == next,
                None => !ok && final(self).info@ == old(self).info@,
            },
    {
        r.skip(2);
        r.skip(4);
        let name_off: u32 = match r.u32() {
            Some(name_off) => name_off,
            None => {
                return false;
            },
        };
        skip_inline_name(r, chunk, base, name_off);
        if more {
            r.skip(4);
        }
        push_name(&mut self.stack, values::binxml_name(chunk, name_off as usize));
        self.data_name = String::new();
        true
    }

    fn attribute(&mut self, r: &mut Cursor, chunk: &[u8], base: usize) -> (ok: bool)
        requires
            old(r).pos <= old(r).data@.len(),
        ensures
            final(r).data@ == old(r).data@,
            match old(self).state(old(r).pos as int).attribute(old(r).data@, chunk@, base as int) {
                Some(next) => ok && final(self).state(final(r).pos as int) == next,
                None => !ok && final(self).info@ == old(self).info@,
            },
    {
        let name_off: u32 = match r.u32() {
            Some(name_off) => name_off,
            None => {
                return false;
            },
        };
        skip_inline_name(r, chunk, base, name_off);
        self.attr = values::binxml_name(chunk, name_off as usize);
        true
    }

    fn value(&mut self, val: String, Ghost(pos): Ghost<int>)
        ensures
            final(self).state(pos) == old(self).state(0).value(val@, pos),
    {
        let n: usize = self.stack.len();
        assert(n > 0 ==> self.state(0).stack.last() == self.stack@[n - 1]@);
        if text::same_text(self.attr.as_str(), "Name") && n > 0 && text::same_text(
            self.stack[n - 1].as_str(),
            "Data",
        ) {
            self.data_name = val;
        } else if !val.as_str().is_empty() && n > 0 && self.attr.as_str().is_empty() {
            assert(""@ =~= seq![]) by {
                reveal_strlit("");
            }
            if let Some(name) = subst_context_name(self.stack[n - 1].as_str(), "") {
                self.info.literal_fields.insert(name, val);
            }
        }
        self.attr = String::new();
    }

    fn substitution(&mut self, id: u16, Ghost(pos): Ghost<int>)
        ensures
            final(self).state(pos) == old(self).state(0).substitution(id, pos),
    {
        let elem = innermost_name(&self.stack);
        let name = if text::same_text(elem.as_str(), "Data") && !self.data_name.as_str().is_empty() {
            Some(self.data_name.clone())
        } else {
            subst_context_name(elem.as_str(), self.attr.as_str())
        };
        if let Some(name) = name {
            let ghost before = self.info@.field_map;
            let ghost shown = name@;
            self.info.field_map.insert(id, name);
            assert(self.info@.field_map =~= before.insert(id, shown));
        }
        self.attr = String::new();
    }

    fn step(&mut self, r: &mut Cursor, chunk: &[u8], base: usize) -> (ok: bool)
        requires
            old(r).pos < old(r).data@.len(),
        ensures
            final(r).data@ == old(r).data@,
            match old(self).state(old(r).pos as int).next(old(r).data@, chunk@, base as int) {
                Some(next) => ok && final(self).state(final(r).pos as int) == next,
                None => !ok && final(self).info@ == old(self).info@,
            },
    {
        let ghost at = r.pos as int;
        let tok: u8 = match r.u8() {
            Some(tok) => tok,
            None => {
                return false;
            },
        };
        assert(self.state(r.pos as int) == (TemplateState { pos: at + 1, ..self.state(at) }));
        match tok {
            TOK_EOF => false,
            TOK_FRAG_HDR => {
                r.skip(3);
                true
            },
            TOK_OPEN_ELEM => self.open(r, chunk, base, false),
            0x41 => self.open(r, chunk, base, true),
            TOK_CLOSE_EMPTY | TOK_END_ELEM => {
                pop_name(&mut self.stack);
                true
            },
            TOK_ATTR | 0x46 => self.attribute(r, chunk, base),
            TOK_VALUE => {
                let vtype: u8 = match r.u8() {
                    Some(vtype) => vtype,
                    None => {
                        return false;
                    },
                };
                let val = values::read_typed_value(r, vtype);
                self.value(val, Ghost(r.pos as int));
                true
            },
            TOK_NORM_SUBST | TOK_OPT_SUBST | 0x4D | 0x4E => {
                let id: u16 = match r.u16() {
                    Some(id) => id,
                    None => {
                        return false;
                    },
                };
                if r.u8().is_none() {
                    return false;
                }
                self.substitution(id, Ghost(r.pos as int));
                true
            },
            _ => true,
        }
    }
}

/// Opens an element.
pub fn push_name(stack: &mut Vec<String>, name: String)
    ensures
        text::texts(final(stack)@) == text::texts(old(stack)@).push(name@),
{
    stack.push(name);
    assert(text::texts(stack@) =~= text::texts(old(stack)@).push(name@));
}

/// Closes the innermost element.
pub fn pop_name(stack: &mut Vec<String>)
    ensures
        text::texts(final(stack)@) == closed(text::texts(old(stack)@)),
{
    stack.pop();
    assert(text::texts(stack@) =~= closed(text::texts(old(stack)@)));
}

/// The innermost open element, empty where there is none.
pub fn innermost_name(stack: &Vec<String>) -> (r: String)
    ensures
        r@ == innermost(text::texts(stack@)),
{
    if stack.len() == 0 {
        String::new()
    } else {
        stack[stack.len() - 1].clone()
    }
}

fn parse_template_binxml(binxml: &[u8], chunk: &[u8], base: usize) -> (r: TemplateInfo)
    ensures
        r@ == template_of(binxml@, chunk@, base as int),
{
    let mut r = Cursor::new(binxml);
    let mut walk = TemplateWalk::new();
    let ghost whole = template_of(binxml@, chunk@, base as int);
    while r.remaining() > 0
        invariant_except_break
            r.pos <= binxml@.len(),
            template_from(binxml@, chunk@, base as int, walk.state(r.pos as int)) == whole,
        invariant
            r.data@ == binxml@,
        ensures
            walk.info@ == whole,
        decreases binxml@.len() - r.pos,
    {
        proof {
            lemma_walk_goes_on(binxml@, chunk@, base as int, walk.state(r.pos as int));
        }
        if !walk.step(&mut r, chunk, base) {
            break ;
        }
    }
    walk.info
}

/// A step of the walk steps over a token, and stays in the definition.
proof fn lemma_walk_goes_on(data: Seq<u8>, chunk: Seq<u8>, base: int, state: TemplateState)
    requires
        0 <= state.pos < data.len(),
    ensures
        state.next(data, chunk, base) matches Some(next) ==> state.pos < next.pos <= data.len(),
{
}

fn skip_inline_name(r: &mut Cursor, chunk: &[u8], base: usize, name_off: u32)
    ensures
        final(r).data@ == old(r).data@,
        final(r).pos == after_name(
            old(r).data@,
            chunk@,
            base as int,
            old(r).pos as int,
            name_off as int,
        ),
{
    let at: usize = name_off as usize;
    let inline = match base.checked_add(r.pos) {
        Some(here) => at >= here,
        None => false,
    };
    if inline {
        if let Some(_) = Reader::new(chunk).slice(at, 8) {
            if let Some(len) = Reader::new(chunk).u16(at + 6) {
                r.skip(10 + 2 * len as usize);
            }
        }
    }
}

// ---------------------------------------------------------------------
// Loading definitions
// ---------------------------------------------------------------------

/// What the definition at `offset` of a chunk says, `None` where it does not
/// lie in the chunk.
pub open spec fn template_at(chunk: Seq<u8>, offset: int) -> Option<TemplateView> {
    match reader::u32_at(chunk, offset + 20) {
        Some(size) => match reader::bytes_at(chunk, offset + 24, size as int) {
            Some(binxml) => Some(template_of(binxml, chunk, offset + 24)),
            None => None,
        },
        None => None,
    }
}

/// The definition at `offset` of a chunk, where it can be loaded.
pub open spec fn loadable(chunk: Seq<u8>, offset: int) -> Set<usize> {
    if template_at(chunk, offset) is Some {
        set![offset as usize]
    } else {
        Set::empty()
    }
}

/// The definitions of a chunk that were loaded, by offset.
pub struct TemplateCache {
    pub loaded: HashMap<usize, TemplateInfo>,
}

impl TemplateCache {
    /// Whether what was loaded is what stands in the chunk.
    pub open spec fn holds(&self, chunk: Seq<u8>) -> bool {
        forall|offset: usize| #[trigger]
            self.loaded@.contains_key(offset) ==> template_at(chunk, offset as int) == Some(
                self.loaded@[offset]@,
            )
    }

    /// Whether every definition that was loaded in `before` still is, unchanged.
    pub open spec fn keeps(&self, before: &TemplateCache) -> bool {
        forall|offset: usize| #[trigger]
            before.loaded@.contains_key(offset) ==> self.loaded@.contains_key(offset)
                && self.loaded@[offset] == before.loaded@[offset]
    }

    /// Whether just these definitions were loaded since `before`, as far as they
    /// were not loaded already, and nothing else changed.
    pub open spec fn loaded_since(&self, before: &TemplateCache, offsets: Set<usize>) -> bool {
        &&& self.keeps(before)
        &&& self.loaded@.dom() == before.loaded@.dom().union(offsets)
    }

    /// Nothing loaded.
    pub fn new() -> (r: TemplateCache)
        ensures
            r.loaded@.dom() == Set::<usize>::empty(),
            forall|chunk: Seq<u8>| r.holds(chunk),
    {
        TemplateCache { loaded: HashMap::new() }
    }

    /// The definition at `offset` of the chunk, loaded if it was not before.
    pub fn load(&mut self, chunk: &[u8], offset: usize) -> (r: Option<&TemplateInfo>)
        requires
            old(self).holds(chunk@),
        ensures
            final(self).holds(chunk@),
            final(self).loaded_since(old(self), loadable(chunk@, offset as int)),
            r is None ==> *final(self) == *old(self),
            match r {
                Some(info) => template_at(chunk@, offset as int) == Some(info@),
                None => template_at(chunk@, offset as int) is None,
            },
    {
        proof {
            lemma_nothing_loaded(*self);
        }
        if !self.loaded.contains_key(&offset) {
            let reader = Reader::new(chunk);
            let size: u32 = match reader.u32(offset.saturating_add(20)) {
                Some(size) => size,
                None => {
                    return None;
                },
            };
            let base: usize = offset + TEMPLATE_HEADER_SIZE;
            let binxml = match reader.slice(base, size as usize) {
                Some(binxml) => binxml,
                None => {
                    return None;
                },
            };
            let info = parse_template_binxml(binxml, chunk, base);
            self.loaded.insert(offset, info);
        }
        assert(loadable(chunk@, offset as int) =~= set![offset]);
        assert(self.loaded@.dom() =~= old(self).loaded@.dom().union(set![offset]));
        self.loaded.get(&offset)
    }
}

// ---------------------------------------------------------------------
// Laws
// ---------------------------------------------------------------------

/// A cache into which nothing was loaded is the same as before.
pub proof fn law_nothing_loaded_changes_nothing(cache: TemplateCache, before: TemplateCache)
    requires
        cache.loaded_since(&before, Set::empty()),
    ensures
        cache.loaded@ == before.loaded@,
{
    assert(cache.loaded@.dom() =~= before.loaded@.dom());
    assert forall|offset: usize| #[trigger] cache.loaded@.contains_key(offset) implies cache.loaded@[offset]
        == before.loaded@[offset] by {
        assert(before.loaded@.contains_key(offset));
    }
    assert(cache.loaded@ =~= before.loaded@);
}

/// What is loaded first and what is loaded then is loaded since.
pub proof fn lemma_loaded_again(
    a: TemplateCache,
    b: TemplateCache,
    c: TemplateCache,
    first: Set<usize>,
    more: Set<usize>,
)
    requires
        b.loaded_since(&a, first),
        c.loaded_since(&b, more),
    ensures
        c.loaded_since(&a, first.union(more)),
{
    assert forall|offset: usize| #[trigger] a.loaded@.contains_key(offset) implies c.loaded@.contains_key(
        offset,
    ) && c.loaded@[offset] == a.loaded@[offset] by {
        assert(b.loaded@.contains_key(offset));
    }
    assert(c.loaded@.dom() =~= a.loaded@.dom().union(first.union(more)));
}

/// A cache that is not used stays as it is.
pub proof fn lemma_nothing_loaded(cache: TemplateCache)
    ensures
        cache.loaded_since(&cache, Set::empty()),
{
    assert(cache.loaded@.dom() =~= cache.loaded@.dom().union(Set::empty()));
}

/// What is loaded of a definition does not depend on what else was loaded:
/// caches of one chunk agree, and each holds what loading anew would give.
pub proof fn law_caches_agree(a: TemplateCache, b: TemplateCache, chunk: Seq<u8>, offset: usize)
    requires
        a.holds(chunk),
        b.holds(chunk),
        a.loaded@.contains_key(offset),
        b.loaded@.contains_key(offset),
    ensures
        a.loaded@[offset]@ == b.loaded@[offset]@,
        template_at(chunk, offset as int) == Some(a.loaded@[offset]@),
{
}

/// Whether no field is empty.
pub open spec fn has_no_empty(fields: Map<Seq<char>, Seq<char>>) -> bool {
    forall|k: Seq<char>| #[trigger] fields.contains_key(k) ==> fields[k].len() > 0
}

proof fn lemma_literals_from(data: Seq<u8>, chunk: Seq<u8>, base: int, state: TemplateState)
    requires
        has_no_empty(state.found.literal_fields),
    ensures
        has_no_empty(template_from(data, chunk, base, state).literal_fields),
    decreases data.len() - state.pos,
{
    if 0 <= state.pos < data.len() {
        if let Some(next) = state.next(data, chunk, base) {
            assert(has_no_empty(next.found.literal_fields));
            if next.pos > state.pos {
                lemma_literals_from(data, chunk, base, next);
            }
        }
    }
}

/// No field that a template fixes is empty.
pub proof fn law_literals_are_not_empty(chunk: Seq<u8>, offset: int)
    requires
        template_at(chunk, offset) is Some,
    ensures
        has_no_empty(template_at(chunk, offset)->0.literal_fields),
{
    let size = reader::u32_at(chunk, offset + 20)->0;
    let binxml = reader::bytes_at(chunk, offset + 24, size as int)->0;
    lemma_literals_from(binxml, chunk, offset + 24, template_start());
}

} // verus!
