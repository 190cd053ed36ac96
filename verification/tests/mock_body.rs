use mock_openapi::composite_objects::{
    create_valid_json_from_hashmap, insert_nested_value, mock_body, FlatTable, PropertyValue,
    RequestObject, ResponseObject,
};
use mock_openapi::json::{Json, JsonNumber, Member};
use mock_openapi::object_reference_handler::get_body_by_object_schema;
use mock_openapi::schema::{Property, SchemaNode, SchemaRef, SchemaType, SynthesisError, TypeSet};

fn node(tag: SchemaType) -> SchemaNode {
    SchemaNode {
        schema_type: Some(TypeSet::Single(tag)),
        properties: vec![],
        required: vec![],
        example: None,
        enum_values: vec![],
        items: None,
    }
}

fn object(properties: Vec<(&str, SchemaNode)>, required: Vec<&str>) -> SchemaNode {
    SchemaNode {
        schema_type: Some(TypeSet::Single(SchemaType::Object)),
        properties: properties
            .into_iter()
            .map(|(name, schema)| Property {
                name: name.to_string(),
                schema: SchemaRef::Object(schema),
            })
            .collect(),
        required: required.into_iter().map(|name| name.to_string()).collect(),
        example: None,
        enum_values: vec![],
        items: None,
    }
}

fn int_leaf(i: i32) -> PropertyValue {
    PropertyValue { bool: None, int: Some(i), number: None, string: None, serde_value: None }
}

#[test]
fn integer_property_gives_id_one() {
    let schema = object(vec![("id", node(SchemaType::Integer))], vec!["id"]);
    assert_eq!(mock_body(&schema).ok().unwrap(), "{\"id\":1}");
}

#[test]
fn response_descriptor_has_status_200() {
    let schema = object(vec![("id", node(SchemaType::Integer))], vec!["id"]);
    let response =
        ResponseObject::create_response_object_by_object_schema(&Some(schema)).ok().unwrap();
    assert_eq!(response.response, Some("{\"id\":1}".to_string()));
    assert_eq!(response.status_code, Some(200));
    let empty = ResponseObject::create_response_object_by_object_schema(&None).ok().unwrap();
    assert_eq!(empty.response, None);
    assert_eq!(empty.status_code, None);
}

#[test]
fn request_descriptor_without_schema_is_init() {
    let made = RequestObject::create_request_object_by_object_schema(&None).ok().unwrap();
    assert!(made.headers.is_empty());
    assert!(made.query_params.is_empty());
    assert_eq!(made.body, None);
    let init = RequestObject::init();
    assert!(init.headers.is_empty());
    assert!(init.query_params.is_empty());
    assert_eq!(init.body, None);
}

#[test]
fn every_type_has_its_placeholder() {
    let schema = object(
        vec![
            ("b", node(SchemaType::Boolean)),
            ("i", node(SchemaType::Integer)),
            ("n", node(SchemaType::Number)),
            ("s", node(SchemaType::String)),
        ],
        vec!["b", "i", "n", "s"],
    );
    assert_eq!(mock_body(&schema).ok().unwrap(), "{\"b\":true,\"i\":1,\"n\":1.2,\"s\":\"asd\"}");
}

#[test]
fn optional_property_is_left_out_with_all_below_it() {
    let inner = object(vec![("deep", node(SchemaType::String))], vec!["deep"]);
    let schema = object(vec![("kept", node(SchemaType::String)), ("dropped", inner)], vec!["kept"]);
    let table = get_body_by_object_schema(&schema).ok().unwrap();
    assert_eq!(table.entries.len(), 1);
    assert_eq!(table.entries[0].key, "kept");
    assert_eq!(mock_body(&schema).ok().unwrap(), "{\"kept\":\"asd\"}");
}

#[test]
fn nested_required_objects_are_nested_in_the_body() {
    let inner = object(vec![("c", node(SchemaType::Integer))], vec!["c"]);
    let schema = object(vec![("a", inner), ("b", node(SchemaType::Boolean))], vec!["a", "b"]);
    let table = get_body_by_object_schema(&schema).ok().unwrap();
    let mut keys: Vec<String> = table.entries.iter().map(|row| row.key.clone()).collect();
    keys.sort();
    assert_eq!(keys, vec!["a.c".to_string(), "b".to_string()]);
    assert_eq!(mock_body(&schema).ok().unwrap(), "{\"a\":{\"c\":1},\"b\":true}");
}

#[test]
fn array_of_objects_gives_one_element() {
    let item = object(
        vec![("x", node(SchemaType::Integer)), ("y", node(SchemaType::String))],
        vec!["x", "y"],
    );
    let mut list = node(SchemaType::Array);
    list.items = Some(Box::new(SchemaRef::Object(item)));
    let schema = object(vec![("list", list)], vec!["list"]);
    let table = get_body_by_object_schema(&schema).ok().unwrap();
    let mut keys: Vec<String> = table.entries.iter().map(|row| row.key.clone()).collect();
    keys.sort();
    assert_eq!(keys, vec!["list$array.x".to_string(), "list$array.y".to_string()]);
    assert_eq!(mock_body(&schema).ok().unwrap(), "{\"list\":[{\"x\":1,\"y\":\"asd\"}]}");
}

#[test]
fn bare_scalar_root_stands_at_the_empty_key() {
    let table = get_body_by_object_schema(&node(SchemaType::String)).ok().unwrap();
    assert_eq!(table.entries.len(), 1);
    assert_eq!(table.entries[0].key, "");
    assert_eq!(table.entries[0].value.string, Some("asd".to_string()));
}

#[test]
fn object_without_properties_gives_nothing() {
    let table = get_body_by_object_schema(&node(SchemaType::Object)).ok().unwrap();
    assert_eq!(table.entries.len(), 0);
    assert_eq!(mock_body(&node(SchemaType::Object)).ok().unwrap(), "{}");
}

#[test]
fn unresolved_required_reference_fails() {
    let mut schema = object(vec![], vec!["a"]);
    schema.properties.push(Property {
        name: "a".to_string(),
        schema: SchemaRef::Unresolved { ref_path: "#/components/schemas/A".to_string() },
    });
    assert_eq!(
        get_body_by_object_schema(&schema).err(),
        Some(SynthesisError::UnresolvableReference)
    );
    schema.required.clear();
    assert_eq!(get_body_by_object_schema(&schema).ok().unwrap().entries.len(), 0);
}

#[test]
fn missing_type_tag_fails() {
    let mut leaf = node(SchemaType::String);
    leaf.schema_type = None;
    assert_eq!(get_body_by_object_schema(&leaf).err(), Some(SynthesisError::MissingTypeTag));
    let schema = object(vec![("a", leaf)], vec!["a"]);
    assert_eq!(get_body_by_object_schema(&schema).err(), Some(SynthesisError::MissingTypeTag));
}

#[test]
fn nullable_scalar_property_is_mocked() {
    let mut leaf = node(SchemaType::String);
    leaf.schema_type = Some(TypeSet::Multiple(vec![SchemaType::String, SchemaType::Null]));
    let table = get_body_by_object_schema(&leaf).ok().unwrap();
    assert_eq!(table.entries[0].value.string, Some("asd".to_string()));
    let mut count = node(SchemaType::Integer);
    count.schema_type = Some(TypeSet::Multiple(vec![SchemaType::Null, SchemaType::Integer]));
    let schema = object(vec![("name", leaf), ("count", count)], vec!["name", "count"]);
    assert_eq!(mock_body(&schema).ok().unwrap(), "{\"count\":1,\"name\":\"asd\"}");
}

#[test]
fn example_is_taken_as_it_is() {
    let mut leaf = node(SchemaType::String);
    leaf.example =
        Some(Json::Array(vec![Json::Number(JsonNumber::Integer(7)), Json::Text("x".to_string())]));
    let schema = object(vec![("e", leaf)], vec!["e"]);
    assert_eq!(mock_body(&schema).ok().unwrap(), "{\"e\":[7,\"x\"]}");
}

#[test]
fn reconstruct_merges_leaves_below_one_array_element() {
    let mut table = FlatTable::new();
    table.insert("a$array.x".to_string(), int_leaf(1));
    table.insert("a$array.y".to_string(), int_leaf(2));
    table.insert("a$array.x".to_string(), int_leaf(3));
    let root = create_valid_json_from_hashmap(&table);
    assert_eq!(root.len(), 1);
    assert_eq!(root[0].key, "a");
    match &root[0].value {
        Json::Array(items) => {
            assert_eq!(items.len(), 1);
            match &items[0] {
                Json::Object(inner) => {
                    assert_eq!(inner.len(), 2);
                    assert_eq!(inner[0].key, "x");
                    assert!(matches!(inner[0].value, Json::Number(JsonNumber::Integer(3))));
                    assert_eq!(inner[1].key, "y");
                },
                _ => panic!("the element is an object"),
            }
        },
        _ => panic!("the value is an array"),
    }
}

#[test]
fn last_array_segment_sets_the_bare_name() {
    let mut root: Vec<Member> = vec![];
    insert_nested_value(&mut root, &vec!["tags$array".to_string()], &int_leaf(5));
    assert_eq!(root.len(), 1);
    assert_eq!(root[0].key, "tags");
    assert!(matches!(root[0].value, Json::Number(JsonNumber::Integer(5))));
}

#[test]
fn value_in_the_way_is_left_alone() {
    let mut root: Vec<Member> = vec![];
    insert_nested_value(&mut root, &vec!["a".to_string()], &int_leaf(5));
    insert_nested_value(&mut root, &vec!["a".to_string(), "b".to_string()], &int_leaf(6));
    insert_nested_value(&mut root, &vec!["a$array".to_string(), "b".to_string()], &int_leaf(7));
    assert_eq!(root.len(), 1);
    assert!(matches!(root[0].value, Json::Number(JsonNumber::Integer(5))));
}

#[test]
fn plain_schema_gives_exactly_its_properties_nested() {
    let deepest = object(vec![("z", node(SchemaType::Boolean))], vec!["z"]);
    let middle = object(vec![("y", deepest), ("n", node(SchemaType::Number))], vec!["y", "n"]);
    let schema = object(vec![("x", middle), ("s", node(SchemaType::String))], vec!["x", "s"]);
    let table = get_body_by_object_schema(&schema).ok().unwrap();
    let root = create_valid_json_from_hashmap(&table);
    let expected = Json::Object(vec![
        Member { key: "s".to_string(), value: Json::Text("asd".to_string()) },
        Member {
            key: "x".to_string(),
            value: Json::Object(vec![
                Member {
                    key: "n".to_string(),
                    value: Json::Number(JsonNumber::Decimal("1.2".to_string())),
                },
                Member {
                    key: "y".to_string(),
                    value: Json::Object(vec![Member {
                        key: "z".to_string(),
                        value: Json::Bool(true),
                    }]),
                },
            ]),
        },
    ]);
    assert_eq!(Json::Object(root), expected);
    assert_eq!(
        mock_body(&schema).ok().unwrap(),
        "{\"s\":\"asd\",\"x\":{\"n\":1.2,\"y\":{\"z\":true}}}"
    );
}

#[test]
fn decimal_that_is_no_number_is_written_as_null() {
    let mut leaf = node(SchemaType::Number);
    leaf.example = Some(Json::Number(JsonNumber::Decimal("abc".to_string())));
    let schema = object(vec![("n", leaf)], vec!["n"]);
    assert_eq!(mock_body(&schema).ok().unwrap(), "{\"n\":null}");
}

#[test]
fn entries_with_one_key_are_written_once() {
    let mut leaf = node(SchemaType::String);
    leaf.example = Some(Json::Object(vec![
        Member { key: "k".to_string(), value: Json::Number(JsonNumber::Integer(1)) },
        Member { key: "k".to_string(), value: Json::Number(JsonNumber::Integer(2)) },
    ]));
    let schema = object(vec![("e", leaf)], vec!["e"]);
    assert_eq!(mock_body(&schema).ok().unwrap(), "{\"e\":{\"k\":2}}");
}

#[test]
fn rows_come_in_the_order_of_the_work_list() {
    let a = object(vec![("x", node(SchemaType::Integer))], vec!["x"]);
    let c = object(vec![("y", node(SchemaType::Integer))], vec!["y"]);
    let schema = object(
        vec![("a", a), ("b", node(SchemaType::Boolean)), ("c", c)],
        vec!["a", "b", "c"],
    );
    let table = get_body_by_object_schema(&schema).ok().unwrap();
    let keys: Vec<String> = table.entries.iter().map(|row| row.key.clone()).collect();
    assert_eq!(keys, vec!["b".to_string(), "c.y".to_string(), "a.x".to_string()]);
}

#[test]
fn of_two_leaves_at_one_key_the_later_gives_the_value() {
    let a = object(vec![("b", node(SchemaType::String))], vec!["b"]);
    let schema = object(
        vec![("a", a), ("a.b", node(SchemaType::Integer)), ("z", node(SchemaType::Boolean))],
        vec!["a", "a.b", "z"],
    );
    let table = get_body_by_object_schema(&schema).ok().unwrap();
    let keys: Vec<String> = table.entries.iter().map(|row| row.key.clone()).collect();
    assert_eq!(keys, vec!["a.b".to_string(), "z".to_string()]);
    assert_eq!(table.entries[0].value.string, Some("asd".to_string()));
    assert_eq!(table.entries[0].value.int, None);
    assert_eq!(mock_body(&schema).ok().unwrap(), "{\"a\":{\"b\":\"asd\"},\"z\":true}");
}

#[test]
fn the_first_fault_that_is_met_is_reported() {
    let mut below = object(vec![], vec!["u"]);
    below.properties.push(Property {
        name: "u".to_string(),
        schema: SchemaRef::Unresolved { ref_path: "#/components/schemas/U".to_string() },
    });
    let mut untyped = node(SchemaType::String);
    untyped.schema_type = None;
    let mut single = node(SchemaType::String);
    single.enum_values = vec!["only".to_string()];
    let schema = object(vec![("x", below), ("y", untyped)], vec!["x", "y"]);
    assert_eq!(get_body_by_object_schema(&schema).err(), Some(SynthesisError::MissingTypeTag));
    let mut below = object(vec![], vec!["u"]);
    below.properties.push(Property {
        name: "u".to_string(),
        schema: SchemaRef::Unresolved { ref_path: "#/components/schemas/U".to_string() },
    });
    let schema = object(vec![("x", below), ("y", node(SchemaType::Null))], vec!["x", "y"]);
    assert_eq!(
        get_body_by_object_schema(&schema).err(),
        Some(SynthesisError::UnresolvableReference)
    );
    let mut with_enum = object(vec![("p", node(SchemaType::String))], vec!["p"]);
    with_enum.enum_values = single.enum_values.clone();
    assert_eq!(get_body_by_object_schema(&with_enum).err(), Some(SynthesisError::EmptyEnumRange));
    assert_eq!(get_body_by_object_schema(&single).err(), Some(SynthesisError::EmptyEnumRange));
}

fn sorted(value: &Json) -> Json {
    match value {
        Json::Array(items) => Json::Array(items.iter().map(sorted).collect()),
        Json::Object(entries) => {
            let mut members: Vec<Member> = entries
                .iter()
                .map(|m| Member { key: m.key.clone(), value: sorted(&m.value) })
                .collect();
            members.sort_by(|a, b| a.key.cmp(&b.key));
            Json::Object(members)
        },
        Json::Null => Json::Null,
        Json::Bool(b) => Json::Bool(*b),
        Json::Text(s) => Json::Text(s.clone()),
        Json::Number(JsonNumber::Integer(i)) => Json::Number(JsonNumber::Integer(*i)),
        Json::Number(JsonNumber::Decimal(s)) => Json::Number(JsonNumber::Decimal(s.clone())),
    }
}

fn table_of(rows: &[(&str, i32)]) -> FlatTable {
    let mut table = FlatTable::new();
    for (key, value) in rows {
        table.insert(key.to_string(), int_leaf(*value));
    }
    table
}

#[test]
fn keys_that_share_array_segments_share_one_element() {
    let table = table_of(&[
        ("a$array.x", 1),
        ("c", 2),
        ("a$array.b$array.z", 3),
        ("a$array.y", 4),
        ("a$array.b$array.w$array.v", 5),
    ]);
    let root = create_valid_json_from_hashmap(&table);
    let int = |i: i64| Json::Number(JsonNumber::Integer(i));
    let member = |key: &str, value: Json| Member { key: key.to_string(), value };
    let expected = Json::Object(vec![
        member(
            "a",
            Json::Array(vec![Json::Object(vec![
                member("x", int(1)),
                member(
                    "b",
                    Json::Array(vec![Json::Object(vec![
                        member("z", int(3)),
                        member("w", Json::Array(vec![Json::Object(vec![member("v", int(5))])])),
                    ])]),
                ),
                member("y", int(4)),
            ])]),
        ),
        member("c", int(2)),
    ]);
    assert_eq!(Json::Object(root), expected);
}

#[test]
fn the_order_of_the_rows_changes_the_order_of_the_entries_only() {
    let rows = [("a$array.x", 1), ("c", 2), ("a$array.b.z", 3), ("a$array.y", 4), ("d.e", 5)];
    let first = Json::Object(create_valid_json_from_hashmap(&table_of(&rows)));
    let mut turned = rows;
    turned.reverse();
    let second = Json::Object(create_valid_json_from_hashmap(&table_of(&turned)));
    assert_ne!(first, second);
    assert_eq!(sorted(&first), sorted(&second));
    turned.swap(1, 3);
    let third = Json::Object(create_valid_json_from_hashmap(&table_of(&turned)));
    assert_eq!(sorted(&first), sorted(&third));
}

#[test]
fn a_name_marked_in_one_key_and_plain_in_another_keeps_what_came_first() {
    let marked_first = table_of(&[("a$array.x", 1), ("a.y", 2)]);
    let root = create_valid_json_from_hashmap(&marked_first);
    assert_eq!(root.len(), 1);
    assert!(matches!(&root[0].value, Json::Array(items) if items.len() == 1));
    let plain_first = table_of(&[("a.y", 2), ("a$array.x", 1)]);
    let root = create_valid_json_from_hashmap(&plain_first);
    assert_eq!(root.len(), 1);
    assert!(matches!(&root[0].value, Json::Object(entries) if entries.len() == 1));
}
