use mock_openapi::json::{duplicate_entries, find_key, set_key, Json, JsonNumber, Member};
use mock_openapi::path_key::{
    find_char_in, has_array_marker, make_child_key, make_items_key, segment_parts, split_key,
};
use mock_openapi::schema::{SchemaNode, SchemaRef, SchemaType, SynthesisError, TypeSet};

#[test]
fn keys_split_at_every_dot() {
    assert_eq!(split_key("a.b.c"), vec!["a", "b", "c"]);
    assert_eq!(split_key("abc"), vec!["abc"]);
    assert_eq!(split_key(""), vec![""]);
    assert_eq!(split_key("a..b"), vec!["a", "", "b"]);
    assert_eq!(split_key(".a."), vec!["", "a", ""]);
    assert_eq!(split_key("list$array.x"), vec!["list$array", "x"]);
    assert_eq!(split_key("é.ü"), vec!["é", "ü"]);
}

#[test]
fn array_segments_end_in_the_marker() {
    assert!(has_array_marker("list$array"));
    assert!(has_array_marker("$array"));
    assert!(!has_array_marker("list"));
    assert!(!has_array_marker("array"));
    assert!(!has_array_marker("list$arrays"));
    assert!(!has_array_marker("list$Array"));
    assert_eq!(segment_parts("list$array"), ("list".to_string(), true));
    assert_eq!(segment_parts("a$b$array"), ("a".to_string(), true));
    assert_eq!(segment_parts("$array"), ("".to_string(), true));
    assert_eq!(segment_parts("a$b"), ("a$b".to_string(), false));
    assert_eq!(segment_parts(""), ("".to_string(), false));
}

#[test]
fn first_place_of_a_character() {
    assert_eq!(find_char_in("a$b$", '$'), 1);
    assert_eq!(find_char_in("abc", '$'), 3);
    assert_eq!(find_char_in("", '$'), 0);
}

#[test]
fn keys_are_joined_with_a_dot_below_a_prefix() {
    assert_eq!(make_child_key("", "name"), "name");
    assert_eq!(make_child_key("a", "b"), "a.b");
    assert_eq!(make_child_key("a.b$array", "c"), "a.b$array.c");
    assert_eq!(make_items_key("list"), "list$array");
    assert_eq!(make_items_key(""), "$array");
}

#[test]
fn setting_a_key_replaces_in_place_or_appends() {
    let mut entries: Vec<Member> = vec![];
    set_key(&mut entries, "a".to_string(), Json::Null);
    set_key(&mut entries, "b".to_string(), Json::Bool(true));
    set_key(&mut entries, "a".to_string(), Json::Number(JsonNumber::Integer(2)));
    assert_eq!(entries.len(), 2);
    assert_eq!(entries[0], Member { key: "a".to_string(), value: Json::Number(JsonNumber::Integer(2)) });
    assert_eq!(find_key(&entries, &"b".to_string()), Some(1));
    assert_eq!(find_key(&entries, &"c".to_string()), None);
    assert_eq!(duplicate_entries(&entries), entries);
}

#[test]
fn a_copy_of_a_value_equals_it() {
    let value = Json::Object(vec![
        Member { key: "n".to_string(), value: Json::Number(JsonNumber::Decimal("1.5".to_string())) },
        Member {
            key: "l".to_string(),
            value: Json::Array(vec![Json::Text("x".to_string()), Json::Null, Json::Bool(false)]),
        },
    ]);
    assert_eq!(value.duplicate(), value);
}

#[test]
fn tags_are_looked_up_in_the_set() {
    let single = TypeSet::Single(SchemaType::Array);
    assert!(single.contains(SchemaType::Array));
    assert!(!single.contains(SchemaType::Null));
    assert!(single.is_array_or_nullable_array());
    let nullable = TypeSet::Multiple(vec![SchemaType::Null, SchemaType::Array]);
    assert!(nullable.contains(SchemaType::Array));
    assert!(nullable.contains(SchemaType::Null));
    assert!(!nullable.contains(SchemaType::String));
    assert!(nullable.is_array_or_nullable_array());
    assert!(TypeSet::Multiple(vec![SchemaType::Array, SchemaType::Null]).is_array_or_nullable_array());
    assert!(TypeSet::Multiple(vec![SchemaType::Array]).is_array_or_nullable_array());
    assert!(!TypeSet::Multiple(vec![]).is_array_or_nullable_array());
    assert!(!TypeSet::Multiple(vec![SchemaType::Array, SchemaType::String])
        .is_array_or_nullable_array());
    assert!(!TypeSet::Multiple(vec![SchemaType::Array, SchemaType::Null, SchemaType::Null])
        .is_array_or_nullable_array());
    assert!(!TypeSet::Single(SchemaType::Object).is_array_or_nullable_array());
}

#[test]
fn references_resolve_to_their_schema() {
    let node = SchemaNode {
        schema_type: None,
        properties: vec![],
        required: vec!["a".to_string()],
        example: None,
        enum_values: vec![],
        items: None,
    };
    assert!(node.is_required(&"a".to_string()));
    assert!(!node.is_required(&"b".to_string()));
    let there = SchemaRef::Object(node);
    assert!(there.resolve().is_ok());
    let gone = SchemaRef::Unresolved { ref_path: "#/components/schemas/Gone".to_string() };
    assert_eq!(gone.resolve().err(), Some(SynthesisError::UnresolvableReference));
}
