//! JSON documents as plain data.
//!
//! A document is a tree of [`Json`] values. Objects keep their entries in a
//! vector of `(key, value)` pairs; numbers are either machine integers or a
//! decimal literal kept as text, so that no floating point value is needed to
//! carry a number through.  Contracts speak of the mathematical view
//! [`JsonModel`], which replaces vectors and strings by sequences.

use crate::first_index::{first_index, lemma_first_index, lemma_first_index_is};
use vstd::prelude::*;

verus! {

/// A JSON number.
#[derive(Debug, PartialEq, Eq)]
pub enum JsonNumber {
    /// An integer.
    Integer(i64),
    /// Any other number, as the text of its literal (`"1.2"`).
    Decimal(String),
}

/// A JSON value.
#[derive(Debug, PartialEq, Eq)]
pub enum Json {
    Null,
    Bool(bool),
    Number(JsonNumber),
    Text(String),
    Array(Vec<Json>),
    Object(Vec<Member>),
}

/// One entry of an object.
#[derive(Debug, PartialEq, Eq)]
pub struct Member {
    pub key: String,
    pub value: Json,
}

/// The view of a [`JsonNumber`].
pub enum NumberModel {
    Integer(int),
    Decimal(Seq<char>),
}

/// The view of a [`Json`] value.
pub enum JsonModel {
    Null,
    Bool(bool),
    Number(NumberModel),
    Text(Seq<char>),
    Array(Seq<JsonModel>),
    Object(Seq<MemberModel>),
}

/// The view of a [`Member`].
pub struct MemberModel {
    pub key: Seq<char>,
    pub value: JsonModel,
}

/// The entries of an object, as the contracts see them.
pub type Entries = Seq<MemberModel>;

impl View for JsonNumber {
    type V = NumberModel;

    open spec fn view(&self) -> NumberModel {
        match self {
            JsonNumber::Integer(i) => NumberModel::Integer(*i as int),
            JsonNumber::Decimal(text) => NumberModel::Decimal(text@),
        }
    }
}

impl View for Json {
    type V = JsonModel;

    open spec fn view(&self) -> JsonModel
        decreases self,
    {
        match self {
            Json::Null => JsonModel::Null,
            Json::Bool(b) => JsonModel::Bool(*b),
            Json::Number(n) => JsonModel::Number(n@),
            Json::Text(s) => JsonModel::Text(s@),
            Json::Array(items) => JsonModel::Array(
                Seq::new(
                    items@.len(),
                    |i: int|
                        if 0 <= i < items@.len() {
                            items@[i]@
                        } else {
                            JsonModel::Null
                        },
                ),
            ),
            Json::Object(entries) => JsonModel::Object(
                Seq::new(
                    entries@.len(),
                    |i: int|
                        if 0 <= i < entries@.len() {
                            MemberModel { key: entries@[i].key@, value: entries@[i].value@ }
                        } else {
                            MemberModel { key: Seq::empty(), value: JsonModel::Null }
                        },
                ),
            ),
        }
    }
}

/// The view of a vector of values, element by element.
pub open spec fn items_model(items: Seq<Json>) -> Seq<JsonModel> {
    Seq::new(items.len(), |i: int| items[i]@)
}

/// The view of a vector of object entries, element by element.
pub open spec fn entries_model(entries: Seq<Member>) -> Entries {
    Seq::new(entries.len(), |i: int| MemberModel { key: entries[i].key@, value: entries[i].value@ })
}

/// The view of an array is the view of its items.
pub proof fn lemma_array_view(items: Vec<Json>)
    ensures
        Json::Array(items)@ == JsonModel::Array(items_model(items@)),
{
    assert(Json::Array(items)@->Array_0 =~= items_model(items@));
}

/// The view of an object is the view of its entries.
pub proof fn lemma_object_view(entries: Vec<Member>)
    ensures
        Json::Object(entries)@ == JsonModel::Object(entries_model(entries@)),
{
    assert(Json::Object(entries)@->Object_0 =~= entries_model(entries@));
}

/// The keys of the entries, in their order.
pub open spec fn keys_of(entries: Entries) -> Seq<Seq<char>> {
    Seq::new(entries.len(), |i: int| entries[i].key)
}

/// The position of the first entry with the given key, or the number of
/// entries where no entry has it.
pub open spec fn key_position(entries: Entries, key: Seq<char>) -> int {
    first_index(keys_of(entries), key)
}

/// Whether some entry has the given key.
pub open spec fn has_key(entries: Entries, key: Seq<char>) -> bool {
    key_position(entries, key) < entries.len()
}

/// The value of the first entry with the given key.  Where two entries have
/// one key, the first is the one that is read and set here; the JSON text of
/// such an object shows the later one.  Rebuilding makes no such object, and
/// reading JSON text gives none.
pub open spec fn lookup(entries: Entries, key: Seq<char>) -> Option<JsonModel> {
    if has_key(entries, key) {
        Some(entries[key_position(entries, key)].value)
    } else {
        None
    }
}

/// The entries after `key` is set to `value`: an entry that has the key keeps
/// its place and takes the new value; otherwise a new entry comes last.
pub open spec fn put(entries: Entries, key: Seq<char>, value: JsonModel) -> Entries {
    if has_key(entries, key) {
        entries.update(key_position(entries, key), MemberModel { key, value })
    } else {
        entries.push(MemberModel { key, value })
    }
}

/// No two entries share a key.
pub open spec fn distinct_keys(entries: Entries) -> bool {
    forall|i: int, j: int|
        0 <= i < j < entries.len() ==> (#[trigger] entries[i]).key != (#[trigger] entries[j]).key
}

/// What `key_position` finds: the first place where the key stands.
pub proof fn lemma_key_position(entries: Entries, key: Seq<char>)
    ensures
        0 <= key_position(entries, key) <= entries.len(),
        forall|i: int| 0 <= i < key_position(entries, key) ==> (#[trigger] entries[i]).key != key,
        has_key(entries, key) ==> entries[key_position(entries, key)].key == key,
{
    lemma_first_index(keys_of(entries), key);
    assert forall|i: int| 0 <= i < key_position(entries, key) implies (#[trigger] entries[i]).key
        != key by {
        assert(keys_of(entries)[i] != key);
    }
}

/// A place that holds the key, with no earlier place holding it, is the one
/// that `key_position` finds.
pub proof fn lemma_key_position_is(entries: Entries, key: Seq<char>, at: int)
    requires
        0 <= at <= entries.len(),
        forall|i: int| 0 <= i < at ==> (#[trigger] entries[i]).key != key,
        at < entries.len() ==> entries[at].key == key,
    ensures
        key_position(entries, key) == at,
{
    lemma_first_index_is(keys_of(entries), key, at);
}

/// Setting a key keeps the keys distinct, and the key then maps to the value.
pub proof fn lemma_put(entries: Entries, key: Seq<char>, value: JsonModel)
    ensures
        lookup(put(entries, key, value), key) == Some(value),
        forall|other: Seq<char>|
            other != key ==> lookup(put(entries, key, value), other) == lookup(entries, other),
        distinct_keys(entries) ==> distinct_keys(put(entries, key, value)),
        put(entries, key, value).len() == if has_key(entries, key) {
            entries.len()
        } else {
            entries.len() + 1
        },
{
    let after = put(entries, key, value);
    let at = key_position(entries, key);
    lemma_key_position(entries, key);
    lemma_key_position_is(after, key, at);
    assert forall|other: Seq<char>| other != key implies lookup(after, other) == lookup(
        entries,
        other,
    ) by {
        let p = key_position(entries, other);
        lemma_key_position(entries, other);
        assert(p != at || p == entries.len());
        assert forall|i: int| 0 <= i < p implies (#[trigger] after[i]).key != other by {
            if i != at {
                assert(after[i] == entries[i]);
            }
        }
        if p < entries.len() {
            assert(after[p] == entries[p]);
            lemma_key_position_is(after, other, p);
        } else {
            lemma_key_position_is(after, other, after.len() as int);
        }
    }
    if distinct_keys(entries) {
        assert forall|i: int, j: int| 0 <= i < j < after.len() implies (#[trigger] after[i]).key != (#[trigger] after[j]).key by {
            if at < entries.len() {
                if i != at && j != at {
                    assert(after[i] == entries[i] && after[j] == entries[j]);
                } else if i == at {
                    assert(entries[j].key != entries[at].key);
                } else {
                    assert(entries[i].key != entries[at].key);
                }
            } else if j == at {
                assert(after[i] == entries[i]);
            } else {
                assert(after[i] == entries[i] && after[j] == entries[j]);
            }
        }
    }
}

impl JsonNumber {
    /// A copy of the number.
    pub fn duplicate(&self) -> (copy: JsonNumber)
        ensures
            copy@ == self@,
    {
        match self {
            JsonNumber::Integer(i) => JsonNumber::Integer(*i),
            JsonNumber::Decimal(text) => JsonNumber::Decimal(text.clone()),
        }
    }
}

impl Json {
    /// A copy of the value, with the same view.
    pub fn duplicate(&self) -> (copy: Json)
        ensures
            copy@ == self@,
        decreases self,
    {
        match self {
            Json::Null => Json::Null,
            Json::Bool(b) => Json::Bool(*b),
            Json::Number(n) => Json::Number(n.duplicate()),
            Json::Text(s) => Json::Text(s.clone()),
            Json::Array(items) => {
                let copies = duplicate_items(items);
                proof {
                    lemma_array_view(*items);
                    lemma_array_view(copies);
                }
                Json::Array(copies)
            },
            Json::Object(entries) => {
                let copies = duplicate_entries(entries);
                proof {
                    lemma_object_view(*entries);
                    lemma_object_view(copies);
                }
                Json::Object(copies)
            },
        }
    }
}

/// A copy of the items of an array.
pub fn duplicate_items(items: &Vec<Json>) -> (copies: Vec<Json>)
    ensures
        items_model(copies@) == items_model(items@),
    decreases items,
{
    let mut copies: Vec<Json> = Vec::new();
    let mut i: usize = 0;
    while i < items.len()
        invariant
            i <= items.len(),
            copies.len() == i,
            forall|k: int| 0 <= k < i ==> (#[trigger] copies@[k])@ == items@[k]@,
        decreases items.len() - i,
    {
        assert(decreases_to!(items => items@[i as int]));
        copies.push(items[i].duplicate());
        i += 1;
    }
    assert(items_model(copies@) =~= items_model(items@));
    copies
}

/// A copy of the entries of an object.
pub fn duplicate_entries(entries: &Vec<Member>) -> (copies: Vec<Member>)
    ensures
        entries_model(copies@) == entries_model(entries@),
    decreases entries,
{
    let mut copies: Vec<Member> = Vec::new();
    let mut i: usize = 0;
    while i < entries.len()
        invariant
            i <= entries.len(),
            copies.len() == i,
            forall|k: int|
                0 <= k < i ==> (#[trigger] copies@[k]).key@ == entries@[k].key@
                    && copies@[k].value@ == entries@[k].value@,
        decreases entries.len() - i,
    {
        assert(decreases_to!(entries => entries@[i as int].value));
        let key = entries[i].key.clone();
        let value = entries[i].value.duplicate();
        copies.push(Member { key, value });
        i += 1;
    }
    assert(entries_model(copies@) =~= entries_model(entries@));
    copies
}

/// The place of the first entry with the given key.
pub fn find_key(entries: &Vec<Member>, key: &String) -> (found: Option<usize>)
    ensures
        match found {
            Some(at) => has_key(entries_model(entries@), key@) && at == key_position(
                entries_model(entries@),
                key@,
            ),
            None => !has_key(entries_model(entries@), key@),
        },
{
    let ghost model = entries_model(entries@);
    let mut i: usize = 0;
    while i < entries.len()
        invariant
            i <= entries.len(),
            model == entries_model(entries@),
            forall|k: int| 0 <= k < i ==> (#[trigger] model[k]).key != key@,
        decreases entries.len() - i,
    {
        if entries[i].key == *key {
            proof {
                lemma_key_position_is(model, key@, i as int);
            }
            return Some(i);
        }
        i += 1;
    }
    proof {
        lemma_key_position_is(model, key@, i as int);
    }
    None
}

/// Sets `key` to `value`: an entry that has the key keeps its place and takes
/// the new value; otherwise a new entry comes last.
pub fn set_key(entries: &mut Vec<Member>, key: String, value: Json)
    ensures
        entries_model(final(entries)@) == put(entries_model(old(entries)@), key@, value@),
{
    let ghost before = entries_model(entries@);
    match find_key(entries, &key) {
        Some(at) => {
            entries.set(at, Member { key, value });
            assert(entries_model(entries@) =~= put(before, key@, value@));
        },
        None => {
            entries.push(Member { key, value });
            assert(entries_model(entries@) =~= put(before, key@, value@));
        },
    }
}

} // verus!
