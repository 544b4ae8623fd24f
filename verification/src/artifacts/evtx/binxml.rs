//! The BinXML of an event record.

use vstd::prelude::*;

use super::super::reader;
use super::super::reader::Cursor;
use super::fields::FieldMap;
use super::instance;
use super::instance::{apply_template_instance, MAX_FIELD_LEN};
use super::template;
use super::template::{
    TemplateCache, TOK_ATTR, TOK_CLOSE_ELEM, TOK_CLOSE_EMPTY, TOK_EOF, TOK_FRAG_HDR,
    TOK_NORM_SUBST, TOK_OPEN_ELEM, TOK_OPT_SUBST, TOK_TMPL_INST, TOK_VALUE,
};
use super::values;
use crate::text;

verus! {

/// A record with this many fields is read no further.
pub const MAX_FIELDS: usize = 256;

/// The field of an attribute. The `Name` of a `Data` element waits for the
/// element's value, and an attribute of no known field has a name of both.
pub open spec fn attribute_key(elem: Seq<char>, attr: Seq<char>) -> Seq<char> {
    if elem == "Data"@ && attr == "Name"@ {
        "_DataName"@
    } else {
        match template::context_name(elem, attr) {
            Some(name) => name,
            None => elem + "/"@ + attr,
        }
    }
}

fn inline_attr_key(elem: &str, attr: &str) -> (r: String)
    ensures
        r@ == attribute_key(elem@, attr@),
{
    if text::same_text(elem, "Data") && text::same_text(attr, "Name") {
        return "_DataName".to_string();
    }
    match template::subst_context_name(elem, attr) {
        Some(name) => name,
        None => {
            let mut key = elem.to_string();
            key.append("/");
            key.append(attr);
            key
        },
    }
}

/// The walk over a record: the position, the open elements, the attribute that
/// waits for a value, and the fields that were found.
#[verifier::ext_equal]
pub struct RecordState {
    pub pos: int,
    pub stack: Seq<Seq<char>>,
    pub attr: Seq<char>,
    pub fields: Map<Seq<char>, Seq<char>>,
}

/// Fields with the value of the `Data` element whose name waits for it.
pub open spec fn with_data(fields: Map<Seq<char>, Seq<char>>, value: Seq<char>) -> Map<
    Seq<char>,
    Seq<char>,
> {
    if fields.contains_key("_DataName"@) {
        fields.remove("_DataName"@).insert(fields["_DataName"@], value)
    } else {
        fields
    }
}

impl RecordState {
    /// Behind a value: it is an attribute's, a `Data` element's or a field's
    /// of its own element's name. Long values are cut, empty ones left out.
    pub open spec fn value(self, val: Seq<char>, pos: int) -> RecordState {
        let next = RecordState { pos, attr: seq![], ..self };
        let elem = template::innermost(self.stack);
        let kept = text::clipped(val, MAX_FIELD_LEN as nat);
        if val.len() == 0 {
            next
        } else if self.attr.len() > 0 {
            let key = attribute_key(elem, self.attr);
            if instance::is_short(key) {
                RecordState { fields: self.fields.insert(key, kept), ..next }
            } else {
                next
            }
        } else if elem == "Data"@ {
            RecordState { fields: with_data(self.fields, kept), ..next }
        } else if elem.len() > 0 && instance::is_short(elem) {
            RecordState { fields: self.fields.insert(elem, kept), ..next }
        } else {
            next
        }
    }

    /// Behind the token of a template instance.
    pub open spec fn instance(self, data: Seq<u8>, chunk: Seq<u8>, base: int) -> RecordState {
        let (found, pos) = instance::instance_at(data, chunk, base, self.pos);
        RecordState {
            pos,
            fields: match found {
                Some(found) => instance::with_instance(data, chunk, base, found, self.fields),
                None => self.fields,
            },
            ..self
        }
    }

    /// Behind the next token and what belongs to it, `None` where the record
    /// ends, is cut off or has an unknown token.
    pub open spec fn next(self, data: Seq<u8>, chunk: Seq<u8>, base: int) -> Option<RecordState> {
        let tok = data[self.pos];
        let pos = self.pos + 1;
        if tok == TOK_FRAG_HDR || tok == TOK_NORM_SUBST || tok == TOK_OPT_SUBST {
            if reader::in_bounds(data, pos, 3) {
                Some(RecordState { pos: pos + 3, ..self })
            } else {
                None
            }
        } else if tok == TOK_OPEN_ELEM {
            match reader::u32_at(data, pos + 6) {
                Some(name_off) => Some(
                    RecordState {
                        pos: pos + 10,
                        stack: self.stack.push(values::name_at(data, name_off as int)),
                        ..self
                    },
                ),
                None => None,
            }
        } else if tok == TOK_CLOSE_ELEM || tok == TOK_CLOSE_EMPTY {
            Some(RecordState { pos, stack: template::closed(self.stack), attr: seq![], ..self })
        } else if tok == TOK_ATTR {
            match reader::u32_at(data, pos) {
                Some(name_off) => Some(
                    RecordState {
                        pos: pos + 4,
                        attr: values::name_at(data, name_off as int),
                        ..self
                    },
                ),
                None => None,
            }
        } else if tok == TOK_VALUE {
            match reader::byte_at(data, pos) {
                Some(vtype) => {
                    let (val, end) = values::value_at(data, pos + 1, vtype);
                    Some(self.value(val, end))
                },
                None => None,
            }
        } else if tok == TOK_TMPL_INST {
            Some((RecordState { pos, ..self }).instance(data, chunk, base))
        } else {
            None
        }
    }
}

impl RecordState {
    /// The template definitions that the next token loads: those of an instance.
    pub open spec fn loads(self, data: Seq<u8>, chunk: Seq<u8>, base: int) -> Set<usize> {
        if data[self.pos] == TOK_TMPL_INST {
            match instance::instance_at(data, chunk, base, self.pos + 1).0 {
                Some(found) => instance::instance_loads(data, chunk, base, found),
                None => Set::empty(),
            }
        } else {
            Set::empty()
        }
    }
}

/// The template definitions that the rest of a record loads, from a state on.
pub open spec fn loads_from(data: Seq<u8>, chunk: Seq<u8>, base: int, state: RecordState) -> Set<
    usize,
>
    decreases data.len() - state.pos,
{
    if 0 <= state.pos < data.len() && state.fields.len() < MAX_FIELDS {
        match state.next(data, chunk, base) {
            Some(next) => if next.pos > state.pos {
                state.loads(data, chunk, base).union(loads_from(data, chunk, base, next))
            } else {
                state.loads(data, chunk, base)
            },
            None => Set::empty(),
        }
    } else {
        Set::empty()
    }
}

/// The template definitions that a record loads, whose BinXML starts at `base`
/// of the chunk: those of its complete instances, nested ones among them.
pub open spec fn loads_of(data: Seq<u8>, chunk: Seq<u8>, base: int) -> Set<usize> {
    loads_from(data, chunk, base, record_start())
}

/// The fields of the rest of a record, from a state on.
pub open spec fn fields_from(data: Seq<u8>, chunk: Seq<u8>, base: int, state: RecordState) -> Map<
    Seq<char>,
    Seq<char>,
>
    decreases data.len() - state.pos,
{
    if 0 <= state.pos < data.len() && state.fields.len() < MAX_FIELDS {
        match state.next(data, chunk, base) {
            Some(next) => if next.pos > state.pos {
                fields_from(data, chunk, base, next)
            } else {
                next.fields
            },
            None => state.fields,
        }
    } else {
        state.fields
    }
}

/// The start of the walk.
pub open spec fn record_start() -> RecordState {
    RecordState { pos: 0, stack: seq![], attr: seq![], fields: Map::empty() }
}

/// The fields of a record, whose BinXML starts at `base` of the chunk.
pub open spec fn fields_of(data: Seq<u8>, chunk: Seq<u8>, base: int) -> Map<Seq<char>, Seq<char>> {
    fields_from(data, chunk, base, record_start())
}

struct RecordWalk {
    stack: Vec<String>,
    attr: String,
    fields: FieldMap,
}

impl RecordWalk {
    closed spec fn state(&self, pos: int) -> RecordState {
        RecordState {
            pos,
            stack: text::texts(self.stack@),
            attr: self.attr@,
            fields: self.fields@,
        }
    }

    fn value(&mut self, val: String, Ghost(pos): Ghost<int>)
        ensures
            final(self).state(pos) == old(self).state(0).value(val@, pos),
    {
        if !val.as_str().is_empty() {
            let elem = template::innermost_name(&self.stack);
            let kept = text::clip(val.as_str(), MAX_FIELD_LEN);
            if !self.attr.as_str().is_empty() {
                let key = inline_attr_key(elem.as_str(), self.attr.as_str());
                if instance::short(key.as_str()) {
                    self.fields.insert(key, kept);
                }
            } else if text::same_text(elem.as_str(), "Data") {
                if let Some(name) = self.fields.remove("_DataName") {
                    self.fields.insert(name, kept);
                } else {
                    assert(old(self).fields@.remove("_DataName"@) =~= old(self).fields@);
                }
            } else if !elem.as_str().is_empty() && instance::short(elem.as_str()) {
                self.fields.insert(elem, kept);
            }
        }
        self.attr = String::new();
    }

    fn step(&mut self, r: &mut Cursor, chunk: &[u8], cache: &mut TemplateCache, base: usize) -> (ok:
        bool)
        requires
            old(r).pos < old(r).data@.len(),
            old(cache).holds(chunk@),
        ensures
            final(cache).holds(chunk@),
            final(cache).loaded_since(
                old(cache),
                old(self).state(old(r).pos as int).loads(old(r).data@, chunk@, base as int),
            ),
            final(r).data@ == old(r).data@,
            match old(self).state(old(r).pos as int).next(old(r).data@, chunk@, base as int) {
                Some(next) => ok && final(self).state(final(r).pos as int) == next,
                None => !ok && final(self).fields@ == old(self).fields@,
            },
    {
        proof {
            template::lemma_nothing_loaded(*cache);
        }
        let tok: u8 = match r.u8() {
            Some(tok) => tok,
            None => {
                return false;
            },
        };
        match tok {
            TOK_FRAG_HDR | TOK_NORM_SUBST | TOK_OPT_SUBST => r.skip(3),
            TOK_OPEN_ELEM => {
                if !r.skip(2) || !r.skip(4) {
                    return false;
                }
                match r.u32() {
                    Some(name_off) => {
                        let name = values::binxml_name(r.data, name_off as usize);
                        template::push_name(&mut self.stack, name);
                        true
                    },
                    None => false,
                }
            },
            TOK_CLOSE_ELEM | TOK_CLOSE_EMPTY => {
                template::pop_name(&mut self.stack);
                self.attr = String::new();
                true
            },
            TOK_ATTR => match r.u32() {
                Some(name_off) => {
                    self.attr = values::binxml_name(r.data, name_off as usize);
                    true
                },
                None => false,
            },
            TOK_VALUE => match r.u8() {
                Some(vtype) => {
                    let val = values::read_typed_value(r, vtype);
                    self.value(val, Ghost(r.pos as int));
                    true
                },
                None => false,
            },
            TOK_TMPL_INST => {
                apply_template_instance(r, chunk, cache, &mut self.fields, base);
                true
            },
            TOK_EOF => false,
            _ => false,
        }
    }
}

/// A step of the walk steps over a token, and stays in the record.
proof fn lemma_walk_goes_on(data: Seq<u8>, chunk: Seq<u8>, base: int, state: RecordState)
    requires
        0 <= state.pos < data.len(),
    ensures
        state.next(data, chunk, base) matches Some(next) ==> state.pos < next.pos <= data.len(),
{
    let pos = state.pos + 1;
    instance::lemma_instance_end(data, chunk, base, pos);
}

/// Reads the fields of a record: the same ones whatever the cache holds.
pub(crate) fn parse_event_binxml(
    binxml: &[u8],
    chunk: &[u8],
    cache: &mut TemplateCache,
    base: usize,
) -> (r: FieldMap)
    requires
        old(cache).holds(chunk@),
    ensures
        final(cache).holds(chunk@),
        final(cache).loaded_since(old(cache), loads_of(binxml@, chunk@, base as int)),
        r@ == fields_of(binxml@, chunk@, base as int),
        forall|key: Seq<char>| #[trigger]
            r@.contains_key(key) ==> 1 <= r@[key].len() <= MAX_FIELD_LEN,
{
    let mut r = Cursor::new(binxml);
    let mut walk = RecordWalk {
        stack: Vec::new(),
        attr: String::new(),
        fields: FieldMap::new(),
    };
    let ghost whole = fields_of(binxml@, chunk@, base as int);
    let ghost loads = loads_of(binxml@, chunk@, base as int);
    let ghost mut done: Set<usize> = Set::empty();
    proof {
        template::lemma_nothing_loaded(*cache);
        assert(done.union(loads) =~= loads);
    }
    assert(text::texts(walk.stack@) =~= seq![]);
    while r.remaining() > 0 && walk.fields.len() < MAX_FIELDS
        invariant_except_break
            r.pos <= binxml@.len(),
            fields_from(binxml@, chunk@, base as int, walk.state(r.pos as int)) == whole,
            done.union(loads_from(binxml@, chunk@, base as int, walk.state(r.pos as int))) == loads,
        invariant
            cache.holds(chunk@),
            cache.loaded_since(old(cache), done),
            r.data@ == binxml@,
        ensures
            walk.fields@ == whole,
            done == loads,
        decreases binxml@.len() - r.pos,
    {
        proof {
            lemma_walk_goes_on(binxml@, chunk@, base as int, walk.state(r.pos as int));
        }
        let ghost state = walk.state(r.pos as int);
        let ghost earlier = *cache;
        let ghost added = state.loads(binxml@, chunk@, base as int);
        let goes_on = walk.step(&mut r, chunk, cache, base);
        proof {
            template::lemma_loaded_again(*old(cache), earlier, *cache, done, added);
            assert(done.union(added).union(
                loads_from(binxml@, chunk@, base as int, walk.state(r.pos as int)),
            ) =~= done.union(
                added.union(loads_from(binxml@, chunk@, base as int, walk.state(r.pos as int))),
            ));
            assert(done.union(Set::empty()) =~= done);
            done = done.union(added);
        }
        if !goes_on {
            break ;
        }
    }
    proof {
        lemma_lengths_from(binxml@, chunk@, base as int, record_start());
    }
    walk.fields
}

// ---------------------------------------------------------------------
// Laws
// ---------------------------------------------------------------------

/// Every value of a record's fields has from 1 to 4096 characters.
pub proof fn law_values_have_lengths(data: Seq<u8>, chunk: Seq<u8>, base: int, key: Seq<char>)
    ensures
        fields_of(data, chunk, base).contains_key(key) ==> 1 <= fields_of(
            data,
            chunk,
            base,
        )[key].len() <= 4096,
{
    lemma_lengths_from(data, chunk, base, record_start());
}

proof fn lemma_lengths_from(data: Seq<u8>, chunk: Seq<u8>, base: int, state: RecordState)
    requires
        instance::has_lengths(state.fields),
    ensures
        instance::has_lengths(fields_from(data, chunk, base, state)),
    decreases data.len() - state.pos,
{
    if 0 <= state.pos < data.len() && state.fields.len() < MAX_FIELDS {
        if let Some(next) = state.next(data, chunk, base) {
            if data[state.pos] == TOK_TMPL_INST {
                if let Some(found) = instance::instance_at(data, chunk, base, state.pos + 1).0 {
                    instance::lemma_instance_lengths(data, chunk, base, found, state.fields);
                }
            }
            assert(instance::has_lengths(next.fields));
            if next.pos > state.pos {
                lemma_lengths_from(data, chunk, base, next);
            }
        }
    }
}

/// A record that holds no byte of an instance's token loads no template.
pub proof fn law_record_without_instance_loads_nothing(data: Seq<u8>, chunk: Seq<u8>, base: int)
    requires
        !data.contains(TOK_TMPL_INST),
    ensures
        loads_of(data, chunk, base) == Set::<usize>::empty(),
{
    lemma_no_loads_from(data, chunk, base, record_start());
}

proof fn lemma_no_loads_from(data: Seq<u8>, chunk: Seq<u8>, base: int, state: RecordState)
    requires
        !data.contains(TOK_TMPL_INST),
    ensures
        loads_from(data, chunk, base, state) == Set::<usize>::empty(),
    decreases data.len() - state.pos,
{
    if 0 <= state.pos < data.len() && state.fields.len() < MAX_FIELDS {
        assert(data[state.pos] != TOK_TMPL_INST);
        if let Some(next) = state.next(data, chunk, base) {
            if next.pos > state.pos {
                lemma_no_loads_from(data, chunk, base, next);
                assert(Set::<usize>::empty().union(Set::empty()) =~= Set::empty());
            }
        }
    }
}

} // verus!
