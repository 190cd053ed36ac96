//! The descriptors of an endpoint and the values they are built from.

use crate::first_index::{first_index, lemma_first_index, lemma_first_index_is};
use crate::flatten_model::{flat_table_of, has_fault, sound};
use crate::json::{
    entries_model, find_key, items_model, lemma_array_view, lemma_key_position, lemma_object_view,
    lookup, put, set_key, Entries, Json, JsonModel, JsonNumber, Member, MemberModel, NumberModel,
};
use crate::json_text::{json_text, write_json};
use crate::object_reference_handler::get_body_by_object_schema;
use crate::path_key::{
    is_array_segment, segment_name, segment_parts, split_key, split_segments, texts,
};
use crate::schema::{SchemaNode, SynthesisError};
use crate::walk_order::{first_fault, table_in_order};
use std::collections::HashMap;
use vstd::prelude::*;

verus! {

/// One synthesized leaf value.  At most one of the fields is set: a boolean,
/// an integer, a number (the text of a decimal literal), a string, or any
/// JSON value.
#[derive(Debug, PartialEq, Eq)]
pub struct PropertyValue {
    pub bool: Option<bool>,
    pub int: Option<i32>,
    pub number: Option<String>,
    pub string: Option<String>,
    pub serde_value: Option<Json>,
}

/// The view of a [`PropertyValue`].
pub struct PropertyValueModel {
    pub bool: Option<bool>,
    pub int: Option<int>,
    pub number: Option<Seq<char>>,
    pub string: Option<Seq<char>>,
    pub serde_value: Option<JsonModel>,
}

impl View for PropertyValue {
    type V = PropertyValueModel;

    open spec fn view(&self) -> PropertyValueModel {
        PropertyValueModel {
            bool: self.bool,
            int: match self.int {
                Some(i) => Some(i as int),
                None => None,
            },
            number: match self.number {
                Some(text) => Some(text@),
                None => None,
            },
            string: match self.string {
                Some(text) => Some(text@),
                None => None,
            },
            serde_value: match self.serde_value {
                Some(value) => Some(value@),
                None => None,
            },
        }
    }
}

impl PropertyValueModel {
    /// How many of the fields are set.
    pub open spec fn populated(self) -> nat {
        (if self.bool is Some { 1nat } else { 0nat })
        + (if self.int is Some { 1nat } else { 0nat })
        + (if self.number is Some { 1nat } else { 0nat })
        + (if self.string is Some { 1nat } else { 0nat })
        + (if self.serde_value is Some { 1nat } else { 0nat })
    }

    /// At most one field is set.
    pub open spec fn well_formed(self) -> bool {
        self.populated() <= 1
    }

    /// The JSON value that the leaf stands for: that of the first field set,
    /// in the order boolean, number, integer, string, JSON value; the empty
    /// string where none is set.
    pub open spec fn json(self) -> JsonModel {
        if let Some(b) = self.bool {
            JsonModel::Bool(b)
        } else if let Some(text) = self.number {
            JsonModel::Number(NumberModel::Decimal(text))
        } else if let Some(i) = self.int {
            JsonModel::Number(NumberModel::Integer(i))
        } else if let Some(text) = self.string {
            JsonModel::Text(text)
        } else if let Some(value) = self.serde_value {
            value
        } else {
            JsonModel::Text(Seq::empty())
        }
    }
}

impl PropertyValue {
    /// The JSON value that the leaf stands for.
    pub fn serialize(&self) -> (value: Json)
        ensures
            value@ == self@.json(),
    {
        if let Some(b) = self.bool {
            return Json::Bool(b);
        }
        if let Some(text) = &self.number {
            return Json::Number(JsonNumber::Decimal(text.clone()));
        }
        if let Some(i) = self.int {
            return Json::Number(JsonNumber::Integer(i as i64));
        }
        if let Some(text) = &self.string {
            return Json::Text(text.clone());
        }
        if let Some(value) = &self.serde_value {
            return value.duplicate();
        }
        Json::Text(String::new())
    }

    /// A copy of the leaf.
    pub fn duplicate(&self) -> (copy: PropertyValue)
        ensures
            copy@ == self@,
    {
        PropertyValue {
            bool: self.bool,
            int: self.int,
            number: match &self.number {
                Some(text) => Some(text.clone()),
                None => None,
            },
            string: match &self.string {
                Some(text) => Some(text.clone()),
                None => None,
            },
            serde_value: match &self.serde_value {
                Some(value) => Some(value.duplicate()),
                None => None,
            },
        }
    }
}

/// One row of a flat table: a dotted path key and the leaf that stands there.
#[derive(Debug, PartialEq, Eq)]
pub struct TableEntry {
    pub key: String,
    pub value: PropertyValue,
}

/// The view of a [`TableEntry`].
pub struct TableEntryModel {
    pub key: Seq<char>,
    pub value: PropertyValueModel,
}

/// The rows of a flat table, as the contracts see them.
pub type Rows = Seq<TableEntryModel>;

/// A flat table: leaves by dotted path key.  No two rows share a key; a key
/// that is inserted again keeps its row and takes the new leaf.
#[derive(Debug, PartialEq, Eq)]
pub struct FlatTable {
    pub entries: Vec<TableEntry>,
}

impl View for FlatTable {
    type V = Rows;

    open spec fn view(&self) -> Rows {
        Seq::new(
            self.entries@.len(),
            |i: int| TableEntryModel { key: self.entries@[i].key@, value: self.entries@[i].value@ },
        )
    }
}

/// The keys of the rows, in their order.
pub open spec fn row_keys(rows: Rows) -> Seq<Seq<char>> {
    Seq::new(rows.len(), |i: int| rows[i].key)
}

/// The place of the row with the given key, or the number of rows where no
/// row has it.
pub open spec fn row_position(rows: Rows, key: Seq<char>) -> int {
    first_index(row_keys(rows), key)
}

/// Whether some row has the given key.
pub open spec fn has_row(rows: Rows, key: Seq<char>) -> bool {
    row_position(rows, key) < rows.len()
}

/// The leaf of the row with the given key.
pub open spec fn row_value(rows: Rows, key: Seq<char>) -> Option<PropertyValueModel> {
    if has_row(rows, key) {
        Some(rows[row_position(rows, key)].value)
    } else {
        None
    }
}

/// The rows after `key` is set to `value`: the row that has the key keeps its
/// place and takes the new leaf; otherwise a new row comes last.
pub open spec fn put_row(rows: Rows, key: Seq<char>, value: PropertyValueModel) -> Rows {
    if has_row(rows, key) {
        rows.update(row_position(rows, key), TableEntryModel { key, value })
    } else {
        rows.push(TableEntryModel { key, value })
    }
}

/// No two rows share a key.
pub open spec fn distinct_rows(rows: Rows) -> bool {
    forall|i: int, j: int|
        0 <= i < j < rows.len() ==> (#[trigger] rows[i]).key != (#[trigger] rows[j]).key
}

/// Setting a row keeps the keys distinct; the key then maps to the leaf, and
/// every other key to what it mapped to before.
pub proof fn lemma_put_row(rows: Rows, key: Seq<char>, value: PropertyValueModel)
    ensures
        row_value(put_row(rows, key, value), key) == Some(value),
        forall|other: Seq<char>|
            other != key ==> row_value(put_row(rows, key, value), other) == row_value(rows, other),
        forall|other: Seq<char>|
            has_row(put_row(rows, key, value), other) <==> (other == key || has_row(rows, other)),
        distinct_rows(rows) ==> distinct_rows(put_row(rows, key, value)),
{
    let after = put_row(rows, key, value);
    let at = row_position(rows, key);
    lemma_first_index(row_keys(rows), key);
    assert(row_keys(after) =~= if at < rows.len() {
        row_keys(rows).update(at, key)
    } else {
        row_keys(rows).push(key)
    });
    lemma_first_index_is(row_keys(after), key, at);
    assert forall|other: Seq<char>| other != key implies row_value(after, other) == row_value(
        rows,
        other,
    ) && (has_row(after, other) <==> has_row(rows, other)) by {
        let p = row_position(rows, other);
        lemma_first_index(row_keys(rows), other);
        if p < rows.len() {
            lemma_first_index_is(row_keys(after), other, p);
        } else {
            lemma_first_index_is(row_keys(after), other, after.len() as int);
        }
    }
    if distinct_rows(rows) {
        assert forall|i: int, j: int| 0 <= i < j < after.len() implies (#[trigger] after[i]).key
            != (#[trigger] after[j]).key by {
            if at < rows.len() {
                if i == at {
                    assert(rows[j].key != rows[at].key);
                } else if j == at {
                    assert(rows[i].key != rows[at].key);
                } else {
                    assert(rows[i].key != rows[j].key);
                }
            } else if j == at {
                assert(row_keys(rows)[i] != key);
            } else {
                assert(rows[i].key != rows[j].key);
            }
        }
    }
}

impl FlatTable {
    /// No two rows of the table share a key.
    pub open spec fn well_formed(&self) -> bool {
        distinct_rows(self@)
    }

    /// A table without rows.
    pub fn new() -> (table: FlatTable)
        ensures
            table@.len() == 0,
            table.well_formed(),
    {
        FlatTable { entries: Vec::new() }
    }

    /// The number of rows.
    pub fn len(&self) -> (n: usize)
        ensures
            n == self@.len(),
    {
        self.entries.len()
    }

    /// The place of the row with the given key.
    pub fn position(&self, key: &String) -> (found: Option<usize>)
        ensures
            match found {
                Some(at) => has_row(self@, key@) && at == row_position(self@, key@),
                None => !has_row(self@, key@),
            },
    {
        let mut i: usize = 0;
        while i < self.entries.len()
            invariant
                i <= self.entries.len(),
                forall|k: int| 0 <= k < i ==> row_keys(self@)[k] != key@,
            decreases self.entries.len() - i,
        {
            if self.entries[i].key == *key {
                proof {
                    lemma_first_index_is(row_keys(self@), key@, i as int);
                }
                return Some(i);
            }
            i += 1;
        }
        proof {
            lemma_first_index_is(row_keys(self@), key@, i as int);
        }
        None
    }

    /// Sets the leaf at `key`; a leaf that stood there is replaced.
    pub fn insert(&mut self, key: String, value: PropertyValue)
        ensures
            final(self)@ == put_row(old(self)@, key@, value@),
            old(self).well_formed() ==> final(self).well_formed(),
    {
        let ghost before = self@;
        proof {
            lemma_put_row(before, key@, value@);
        }
        match self.position(&key) {
            Some(at) => {
                self.entries.set(at, TableEntry { key, value });
            },
            None => {
                self.entries.push(TableEntry { key, value });
            },
        }
        assert(self@ =~= put_row(before, key@, value@));
    }

    /// The leaf at `key`, if the table has one.
    pub fn get(&self, key: &String) -> (found: Option<&PropertyValue>)
        ensures
            match found {
                Some(value) => row_value(self@, key@) == Some(value@),
                None => row_value(self@, key@) is None,
            },
    {
        match self.position(key) {
            Some(at) => Some(&self.entries[at].value),
            None => None,
        }
    }
}

/// An array of one element, the object with the given entries.
pub open spec fn single_item(inner: Entries) -> JsonModel {
    JsonModel::Array(seq![JsonModel::Object(inner)])
}

/// The entries of an object after `value` is inserted along `segments`.
///
/// The last segment sets its name to the value, whatever stood there.  A
/// plain segment before it descends into the object at its name, which is
/// created empty where the name is free.  An array segment before it descends
/// into the first element of the array at its name, which is created as an
/// array of one empty object where the name is free; an array that stands
/// there keeps its length.  Where something else stands in the way (a value
/// that is no object at a plain segment, no array at an array segment, an
/// empty array, a first element that is no object), the entries stay as they
/// are.
pub open spec fn insert_nested(obj: Entries, segments: Seq<Seq<char>>, value: JsonModel) -> Entries
    decreases segments.len(),
{
    if segments.len() == 0 {
        obj
    } else {
        let name = segment_name(segments[0]);
        let rest = segments.skip(1);
        if segments.len() == 1 {
            put(obj, name, value)
        } else if is_array_segment(segments[0]) {
            match lookup(obj, name) {
                None => put(obj, name, single_item(insert_nested(Seq::empty(), rest, value))),
                Some(JsonModel::Array(items)) => {
                    if items.len() > 0 {
                        match items[0] {
                            JsonModel::Object(inner) => put(
                                obj,
                                name,
                                JsonModel::Array(
                                    items.update(
                                        0,
                                        JsonModel::Object(insert_nested(inner, rest, value)),
                                    ),
                                ),
                            ),
                            _ => obj,
                        }
                    } else {
                        obj
                    }
                },
                Some(_) => obj,
            }
        } else {
            match lookup(obj, name) {
                None => put(obj, name, JsonModel::Object(insert_nested(Seq::empty(), rest, value))),
                Some(JsonModel::Object(inner)) => put(
                    obj,
                    name,
                    JsonModel::Object(insert_nested(inner, rest, value)),
                ),
                Some(_) => obj,
            }
        }
    }
}

/// The entries of the document that the rows of a table stand for: each row
/// in turn is inserted along the segments of its key.
pub open spec fn reconstruct(rows: Rows) -> Entries
    decreases rows.len(),
{
    if rows.len() == 0 {
        Seq::empty()
    } else {
        insert_nested(
            reconstruct(rows.drop_last()),
            split_segments(rows.last().key),
            rows.last().value.json(),
        )
    }
}

/// Puts `member` back at the place `at` from which the entry was taken out.
fn restore(entries: &mut Vec<Member>, at: usize, member: Member, Ghost(before): Ghost<Seq<Member>>)
    requires
        at < before.len(),
        old(entries)@ == before.remove(at as int),
    ensures
        final(entries)@ == before.update(at as int, member),
{
    entries.insert(at, member);
    assert(entries@ =~= before.update(at as int, member));
}

/// Inserts `value` along the segments `keys[from..]`.
fn insert_from(root_map: &mut Vec<Member>, keys: &Vec<String>, from: usize, value: &Json)
    requires
        from < keys.len(),
    ensures
        entries_model(final(root_map)@) == insert_nested(
            entries_model(old(root_map)@),
            texts(keys@).skip(from as int),
            value@,
        ),
    decreases keys.len() - from,
{
    let ghost before = root_map@;
    let ghost obj = entries_model(before);
    let ghost segments = texts(keys@).skip(from as int);
    let ghost rest = segments.skip(1);
    assert(rest =~= texts(keys@).skip(from + 1));
    let (name, is_array) = segment_parts(keys[from].as_str());
    assert(segments[0] == keys@[from as int]@);
    if from + 1 == keys.len() {
        set_key(root_map, name, value.duplicate());
        return ;
    }
    match find_key(root_map, &name) {
        None => {
            let mut inner: Vec<Member> = Vec::new();
            assert(entries_model(inner@) =~= Seq::<MemberModel>::empty());
            insert_from(&mut inner, keys, from + 1, value);
            let child = if is_array {
                let ghost inner_model = entries_model(inner@);
                let object = Json::Object(inner);
                proof {
                    lemma_object_view(inner);
                }
                let mut items: Vec<Json> = Vec::new();
                items.push(object);
                proof {
                    lemma_array_view(items);
                    assert(items_model(items@) =~= seq![JsonModel::Object(inner_model)]);
                }
                Json::Array(items)
            } else {
                proof {
                    lemma_object_view(inner);
                }
                Json::Object(inner)
            };
            set_key(root_map, name, child);
        },
        Some(at) => {
            let member = root_map.remove(at);
            assert(member == before[at as int]);
            assert(obj[at as int].value == member.value@);
            proof {
                lemma_key_position(obj, name@);
                assert(member.key@ == name@);
            }
            let Member { key, value: found } = member;
            match found {
                Json::Object(mut inner) => {
                    proof {
                        lemma_object_view(inner);
                    }
                    if !is_array {
                        insert_from(&mut inner, keys, from + 1, value);
                        proof {
                            lemma_object_view(inner);
                        }
                    }
                    let back = Member { key, value: Json::Object(inner) };
                    restore(root_map, at, back, Ghost(before));
                    proof {
                        if is_array {
                            assert(back.value@ == member.value@);
                            assert(entries_model(root_map@) =~= obj);
                        } else {
                            assert(entries_model(root_map@) =~= put(obj, name@, back.value@));
                        }
                    }
                },
                Json::Array(mut items) => {
                    proof {
                        lemma_array_view(items);
                    }
                    let ghost items_before = items@;
                    if is_array && items.len() > 0 {
                        let first = items.remove(0);
                        match first {
                            Json::Object(mut inner) => {
                                proof {
                                    lemma_object_view(inner);
                                }
                                insert_from(&mut inner, keys, from + 1, value);
                                proof {
                                    lemma_object_view(inner);
                                }
                                items.insert(0, Json::Object(inner));
                                assert(items@ =~= items_before.update(0, items@[0]));
                            },
                            other => {
                                items.insert(0, other);
                                assert(items@ =~= items_before);
                            },
                        }
                    }
                    proof {
                        lemma_array_view(items);
                    }
                    let ghost items_after = items@;
                    let back = Member { key, value: Json::Array(items) };
                    restore(root_map, at, back, Ghost(before));
                    proof {
                        let changed = is_array && items_before.len() > 0 && (
                        items_before[0]@ is Object);
                        if changed {
                            assert(items_model(items_after)
                                =~= items_model(items_before).update(
                                0,
                                items_after[0]@,
                            ));
                            assert(entries_model(root_map@) =~= put(obj, name@, back.value@));
                        } else {
                            assert(items_model(items_after)
                                =~= items_model(items_before));
                            assert(entries_model(root_map@) =~= obj);
                        }
                    }
                },
                other => {
                    let back = Member { key, value: other };
                    restore(root_map, at, back, Ghost(before));
                    assert(entries_model(root_map@) =~= obj);
                },
            }
        },
    }
}

/// Inserts the leaf `value` into the object `root_map` along the segments
/// `keys` of its key.
pub fn insert_nested_value(root_map: &mut Vec<Member>, keys: &Vec<String>, value: &PropertyValue)
    requires
        keys.len() > 0,
    ensures
        entries_model(final(root_map)@) == insert_nested(
            entries_model(old(root_map)@),
            texts(keys@),
            value@.json(),
        ),
{
    let leaf = value.serialize();
    assert(texts(keys@).skip(0) =~= texts(keys@));
    insert_from(root_map, keys, 0, &leaf);
}

/// Rebuilds the nested document from a flat table: each row is inserted
/// along the segments of its key, in the order of the rows.
pub fn create_valid_json_from_hashmap(map: &FlatTable) -> (root: Vec<Member>)
    ensures
        entries_model(root@) == reconstruct(map@),
{
    let mut root: Vec<Member> = Vec::new();
    let mut i: usize = 0;
    assert(map@.take(0) =~= Seq::<TableEntryModel>::empty());
    assert(entries_model(root@) =~= Seq::<MemberModel>::empty());
    while i < map.entries.len()
        invariant
            i <= map.entries.len(),
            entries_model(root@) == reconstruct(map@.take(i as int)),
        decreases map.entries.len() - i,
    {
        let keys = split_key(map.entries[i].key.as_str());
        proof {
            let next = map@.take(i + 1);
            assert(next.drop_last() =~= map@.take(i as int));
            assert(next.last() == map@[i as int]);
        }
        insert_nested_value(&mut root, &keys, &map.entries[i].value);
        i += 1;
    }
    assert(map@.take(i as int) =~= map@);
    root
}

/// Whether `text` is a mock body of the schema: the JSON text of the document
/// rebuilt from a flat table of the schema, with its rows in the order of
/// the work list.
pub open spec fn is_mock_body(schema: SchemaNode, text: Seq<char>) -> bool {
    exists|rows: Rows| #[trigger]
        flat_table_of(schema, rows) && table_in_order(schema, rows) && text == json_text(
            JsonModel::Object(reconstruct(rows)),
        )
}

/// Makes a mock body for the schema: flattens it, rebuilds the document and
/// writes it as JSON text.  It succeeds exactly where the schema has no
/// fault; the error is the first fault that flattening meets.
pub fn mock_body(schema: &SchemaNode) -> (body: Result<String, SynthesisError>)
    ensures
        body is Ok <==> sound(*schema),
        match body {
            Ok(text) => is_mock_body(*schema, text@),
            Err(e) => has_fault(*schema, e) && first_fault(*schema, e),
        },
{
    match get_body_by_object_schema(schema) {
        Ok(table) => {
            let root = create_valid_json_from_hashmap(&table);
            proof {
                lemma_object_view(root);
            }
            let document = Json::Object(root);
            let text = write_json(&document);
            assert(flat_table_of(*schema, table@) && table_in_order(*schema, table@) && text@
                == json_text(JsonModel::Object(reconstruct(table@))));
            Ok(text)
        },
        Err(e) => Err(e),
    }
}

/// The request side of an endpoint: the mock body that a request is held
/// against, if the operation declares a JSON body.
#[derive(Clone, Debug)]
pub struct RequestObject {
    pub headers: Vec<String>,
    pub query_params: HashMap<String, String>,
    pub body: Option<String>,
}

impl RequestObject {
    /// Whether the descriptor has no headers and no query parameters.
    pub open spec fn bare(&self) -> bool {
        self.headers@.len() == 0 && self.query_params@ == Map::<String, String>::empty()
    }

    /// A request descriptor with no headers, no query parameters and no body.
    pub fn init() -> (request: RequestObject)
        ensures
            request.bare(),
            request.body is None,
    {
        RequestObject { headers: Vec::new(), query_params: HashMap::new(), body: None }
    }

    /// The request descriptor of an operation: with a mock body where the
    /// operation has a schema, without a body where it has none.  It fails
    /// exactly where the schema has a fault, with the first that flattening
    /// meets.
    pub fn create_request_object_by_object_schema(object_schema: &Option<SchemaNode>) -> (request:
        Result<RequestObject, SynthesisError>)
        ensures
            match *object_schema {
                Some(schema) => {
                    &&& request is Ok <==> sound(schema)
                    &&& match request {
                        Ok(made) => {
                            &&& made.bare()
                            &&& made.body matches Some(text)
                            &&& is_mock_body(schema, text@)
                        },
                        Err(e) => has_fault(schema, e) && first_fault(schema, e),
                    }
                },
                None => {
                    &&& request matches Ok(made)
                    &&& made.bare()
                    &&& made.body is None
                },
            },
    {
        if let Some(obj) = object_schema {
            match mock_body(obj) {
                Ok(text) => Ok(
                    RequestObject {
                        headers: Vec::new(),
                        query_params: HashMap::new(),
                        body: Some(text),
                    },
                ),
                Err(e) => Err(e),
            }
        } else {
            Ok(RequestObject::init())
        }
    }
}

/// The response side of an endpoint: the mock body that is served and its
/// status code.
#[derive(Clone, Debug)]
pub struct ResponseObject {
    pub response: Option<String>,
    pub status_code: Option<i16>,
}

impl ResponseObject {
    /// The response descriptor of an operation: a mock body and the status
    /// 200 where the operation has a schema, neither where it has none.  It
    /// fails exactly where the schema has a fault, with the first that
    /// flattening meets.
    pub fn create_response_object_by_object_schema(object_schema: &Option<SchemaNode>) -> (response:
        Result<ResponseObject, SynthesisError>)
        ensures
            match *object_schema {
                Some(schema) => {
                    &&& response is Ok <==> sound(schema)
                    &&& match response {
                        Ok(made) => {
                            &&& made.status_code == Some(200i16)
                            &&& made.response matches Some(text)
                            &&& is_mock_body(schema, text@)
                        },
                        Err(e) => has_fault(schema, e) && first_fault(schema, e),
                    }
                },
                None => {
                    &&& response matches Ok(made)
                    &&& made.response is None
                    &&& made.status_code is None
                },
            },
    {
        if let Some(obj) = object_schema {
            match mock_body(obj) {
                Ok(text) => Ok(ResponseObject { response: Some(text), status_code: Some(200) }),
                Err(e) => Err(e),
            }
        } else {
            Ok(ResponseObject { response: None, status_code: None })
        }
    }
}

} // verus!
