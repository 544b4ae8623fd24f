//! The named fields of an event record.

use vstd::prelude::*;

use crate::text;
use crate::timeline::json;

verus! {

/// Fields as entries of a JSON object.
pub open spec fn as_json(fields: Map<Seq<char>, Seq<char>>) -> Map<Seq<char>, json::Json> {
    fields.map_values(|v: Seq<char>| json::Json::Text(v))
}

/// Fields, and of `more` those whose names they do not have, cut to `max` characters.
pub open spec fn with_missing(
    fields: Map<Seq<char>, Seq<char>>,
    more: Map<Seq<char>, Seq<char>>,
    max: nat,
) -> Map<Seq<char>, Seq<char>> {
    Map::new(
        |k: Seq<char>| fields.contains_key(k) || more.contains_key(k),
        |k: Seq<char>|
            if fields.contains_key(k) {
                fields[k]
            } else {
                text::clipped(more[k], max)
            },
    )
}

/// The map that a list of pairs gives: a later pair overrides an earlier one.
pub open spec fn pairs_map(pairs: Seq<(String, String)>) -> Map<Seq<char>, Seq<char>>
    decreases pairs.len(),
{
    if pairs.len() == 0 {
        Map::empty()
    } else {
        pairs_map(pairs.drop_last()).insert(pairs.last().0@, pairs.last().1@)
    }
}

spec fn distinct_keys(pairs: Seq<(String, String)>) -> bool {
    forall|i: int, j: int|
        0 <= i < j < pairs.len() ==> (#[trigger] pairs[i]).0@ != (#[trigger] pairs[j]).0@
}

/// Fields by name. No name occurs twice.
pub struct FieldMap {
    entries: Vec<(String, String)>,
}

impl View for FieldMap {
    type V = Map<Seq<char>, Seq<char>>;

    closed spec fn view(&self) -> Map<Seq<char>, Seq<char>> {
        pairs_map(self.entries@)
    }
}

proof fn lemma_pairs(pairs: Seq<(String, String)>)
    requires
        distinct_keys(pairs),
    ensures
        pairs_map(pairs).dom().finite(),
        pairs_map(pairs).len() == pairs.len(),
        forall|i: int|
            0 <= i < pairs.len() ==> pairs_map(pairs).contains_key((#[trigger] pairs[i]).0@),
        forall|i: int|
            0 <= i < pairs.len() ==> pairs_map(pairs)[(#[trigger] pairs[i]).0@] == pairs[i].1@,
        forall|k: Seq<char>| #[trigger]
            pairs_map(pairs).contains_key(k) ==> exists|i: int|
                0 <= i < pairs.len() && (#[trigger] pairs[i]).0@ == k,
    decreases pairs.len(),
{
    if pairs.len() > 0 {
        let front = pairs.drop_last();
        lemma_pairs(front);
        assert forall|k: Seq<char>| #[trigger] pairs_map(pairs).contains_key(k) implies exists|i: int|
            0 <= i < pairs.len() && (#[trigger] pairs[i]).0@ == k by {
            if k == pairs.last().0@ {
                assert(pairs[pairs.len() - 1].0@ == k);
            } else {
                assert(pairs_map(front).contains_key(k));
                let i = choose|i: int| 0 <= i < front.len() && (#[trigger] front[i]).0@ == k;
                assert(pairs[i].0@ == k);
            }
        }
        assert(!pairs_map(front).contains_key(pairs.last().0@)) by {
            if pairs_map(front).contains_key(pairs.last().0@) {
                let i = choose|i: int|
                    0 <= i < front.len() && (#[trigger] front[i]).0@ == pairs.last().0@;
                assert(pairs[i].0@ == pairs[pairs.len() - 1].0@);
            }
        }
        assert forall|i: int| 0 <= i < pairs.len() implies pairs_map(pairs).contains_key(
            (#[trigger] pairs[i]).0@,
        ) && pairs_map(pairs)[pairs[i].0@] == pairs[i].1@ by {
            if i < front.len() {
                assert(front[i] == pairs[i]);
            }
        }
    }
}

impl FieldMap {
    #[verifier::type_invariant]
    closed spec fn inv(self) -> bool {
        distinct_keys(self.entries@)
    }

    /// No fields.
    pub fn new() -> (r: FieldMap)
        ensures
            r@ == Map::<Seq<char>, Seq<char>>::empty(),
    {
        FieldMap { entries: Vec::new() }
    }

    /// The number of fields.
    pub fn len(&self) -> (r: usize)
        ensures
            r == self@.len(),
            self@.dom().finite(),
    {
        proof {
            use_type_invariant(self);
            lemma_pairs(self.entries@);
        }
        self.entries.len()
    }

    fn position(entries: &Vec<(String, String)>, key: &str) -> (r: Option<usize>)
        ensures
            match r {
                Some(i) => i < entries@.len() && entries@[i as int].0@ == key@,
                None => forall|i: int|
                    0 <= i < entries@.len() ==> (#[trigger] entries@[i]).0@ != key@,
            },
    {
        for i in 0..entries.len()
            invariant
                forall|k: int| 0 <= k < i ==> (#[trigger] entries@[k]).0@ != key@,
        {
            if text::same_text(entries[i].0.as_str(), key) {
                return Some(i);
            }
        }
        None
    }

    /// The value of a field.
    pub fn get(&self, key: &str) -> (r: Option<&str>)
        ensures
            r is Some == self@.contains_key(key@),
            r matches Some(v) ==> v@ == self@[key@],
    {
        proof {
            use_type_invariant(self);
            lemma_pairs(self.entries@);
        }
        match FieldMap::position(&self.entries, key) {
            Some(i) => Some(self.entries[i].1.as_str()),
            None => None,
        }
    }

    fn take(&mut self) -> (r: Vec<(String, String)>)
        ensures
            pairs_map(r@) == old(self)@,
            distinct_keys(r@),
    {
        let mut whole = FieldMap::new();
        std::mem::swap(self, &mut whole);
        proof {
            use_type_invariant(&whole);
        }
        whole.entries
    }

    /// Gives a field a value, whatever it was before.
    pub fn insert(&mut self, key: String, value: String)
        ensures
            final(self)@ == old(self)@.insert(key@, value@),
    {
        let mut entries = self.take();
        let ghost before = entries@;
        proof {
            lemma_pairs(before);
        }
        let ghost mut at = before.len() as int;
        match FieldMap::position(&entries, key.as_str()) {
            Some(i) => {
                proof {
                    at = i as int;
                }
                entries.set(i, (key, value));
            },
            None => {
                entries.push((key, value));
            },
        }
        proof {
            assert(distinct_keys(entries@));
            assert(entries@[at].0@ == key@);
            assert forall|k: Seq<char>| #[trigger]
                pairs_map(before).insert(key@, value@).contains_key(k) implies exists|j: int|
                0 <= j < entries@.len() && (#[trigger] entries@[j]).0@ == k by {
                if k != key@ {
                    let j = choose|j: int| 0 <= j < before.len() && (#[trigger] before[j]).0@ == k;
                    assert(entries@[j] == before[j]);
                }
            }
            lemma_same_map(entries@, pairs_map(before).insert(key@, value@));
        }
        *self = FieldMap { entries };
    }

    /// Gives a field a value if it has none.
    pub fn insert_missing(&mut self, key: String, value: String)
        ensures
            final(self)@ == if old(self)@.contains_key(key@) {
                old(self)@
            } else {
                old(self)@.insert(key@, value@)
            },
    {
        if self.get(key.as_str()).is_none() {
            self.insert(key, value);
        }
    }

    /// Adds those of `more` whose names are missing, cut to `max` characters.
    pub fn add_missing(&mut self, more: &FieldMap, max: usize)
        ensures
            final(self)@ == with_missing(old(self)@, more@, max as nat),
    {
        proof {
            use_type_invariant(more);
        }
        assert(self@ =~= with_missing(self@, pairs_map(more.entries@.take(0)), max as nat));
        for i in 0..more.entries.len()
            invariant
                distinct_keys(more.entries@),
                self@ == with_missing(
                    old(self)@,
                    pairs_map(more.entries@.take(i as int)),
                    max as nat,
                ),
        {
            let ghost done = more.entries@.take(i as int);
            assert(more.entries@.take(i + 1).drop_last() =~= done);
            proof {
                lemma_pairs(done);
                let key = more.entries@[i as int].0@;
                if pairs_map(done).contains_key(key) {
                    let j = choose|j: int| 0 <= j < done.len() && (#[trigger] done[j]).0@ == key;
                    assert(more.entries@[j].0@ == more.entries@[i as int].0@);
                }
            }
            let value = text::clip(more.entries[i].1.as_str(), max);
            self.insert_missing(more.entries[i].0.clone(), value);
            assert(self@ =~= with_missing(
                old(self)@,
                pairs_map(more.entries@.take(i + 1)),
                max as nat,
            ));
        }
        assert(more.entries@.take(more.entries@.len() as int) =~= more.entries@);
    }

    /// The fields as entries of a JSON object.
    pub fn to_json(&self) -> (r: serde_json::Map<String, serde_json::Value>)
        ensures
            json::entries(r) == as_json(self@),
    {
        let mut r = json::new_map();
        assert(json::entries(r) =~= as_json(pairs_map(self.entries@.take(0))));
        for i in 0..self.entries.len()
            invariant
                json::entries(r) == as_json(pairs_map(self.entries@.take(i as int))),
        {
            assert(self.entries@.take(i + 1).drop_last() =~= self.entries@.take(i as int));
            let value = json::text(self.entries[i].1.clone());
            json::map_insert(&mut r, self.entries[i].0.clone(), value);
            assert(json::entries(r) =~= as_json(pairs_map(self.entries@.take(i + 1))));
        }
        assert(self.entries@.take(self.entries@.len() as int) =~= self.entries@);
        r
    }

    /// Takes a field out.
    pub fn remove(&mut self, key: &str) -> (r: Option<String>)
        ensures
            r is Some == old(self)@.contains_key(key@),
            r matches Some(v) ==> v@ == old(self)@[key@],
            final(self)@ == old(self)@.remove(key@),
    {
        let mut entries = self.take();
        let ghost before = entries@;
        proof {
            lemma_pairs(before);
        }
        match FieldMap::position(&entries, key) {
            Some(i) => {
                let (_, value) = entries.remove(i);
                proof {
                    assert(distinct_keys(entries@));
                    lemma_pairs(entries@);
                    assert forall|k: Seq<char>| #[trigger]
                        pairs_map(before).remove(key@).contains_key(k) implies exists|j: int|
                        0 <= j < entries@.len() && (#[trigger] entries@[j]).0@ == k by {
                        let j = choose|j: int|
                            0 <= j < before.len() && (#[trigger] before[j]).0@ == k;
                        if j < i {
                            assert(entries@[j] == before[j]);
                        } else {
                            assert(entries@[j - 1] == before[j]);
                        }
                    }
                    lemma_same_map(entries@, pairs_map(before).remove(key@));
                }
                *self = FieldMap { entries };
                Some(value)
            },
            None => {
                assert(pairs_map(before).remove(key@) =~= pairs_map(before));
                *self = FieldMap { entries };
                None
            },
        }
    }
}

proof fn lemma_same_map(pairs: Seq<(String, String)>, map: Map<Seq<char>, Seq<char>>)
    requires
        distinct_keys(pairs),
        forall|i: int|
            0 <= i < pairs.len() ==> map.contains_key((#[trigger] pairs[i]).0@) && map[pairs[i].0@]
                == pairs[i].1@,
        forall|k: Seq<char>| #[trigger]
            map.contains_key(k) ==> exists|i: int|
                0 <= i < pairs.len() && (#[trigger] pairs[i]).0@ == k,
    ensures
        pairs_map(pairs) == map,
{
    lemma_pairs(pairs);
    assert(pairs_map(pairs) =~= map);
}

} // verus!
