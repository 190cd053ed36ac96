use mock_openapi::composite_objects::{FlatTable, PropertyValue};
use mock_openapi::json::{Json, JsonNumber};
use mock_openapi::object_reference_handler::{
    get_body_by_object_schema, get_property_value_object, get_values_from_property,
    is_single_property, synthesize_with, LeafValue,
};
use mock_openapi::schema::{Property, SchemaNode, SchemaRef, SchemaType, SynthesisError, TypeSet};

fn names(values: &[&str]) -> Vec<String> {
    values.iter().map(|v| v.to_string()).collect()
}

fn leaf(tag: SchemaType) -> SchemaNode {
    SchemaNode {
        schema_type: Some(TypeSet::Single(tag)),
        properties: vec![],
        required: vec![],
        example: None,
        enum_values: vec![],
        items: None,
    }
}

fn empty_value() -> PropertyValue {
    PropertyValue { bool: None, int: None, number: None, string: None, serde_value: None }
}

#[test]
fn enumeration_never_gives_its_last_entry() {
    let tags = TypeSet::Single(SchemaType::String);
    let two = names(&["first", "last"]);
    let three = names(&["a", "b", "c"]);
    for _ in 0..200 {
        assert_eq!(
            get_values_from_property(&tags, &None, &two),
            Ok(LeafValue::Text("first".to_string()))
        );
        match get_values_from_property(&tags, &None, &three) {
            Ok(LeafValue::Text(chosen)) => assert!(chosen == "a" || chosen == "b"),
            other => panic!("an entry is chosen, not {:?}", other),
        }
    }
}

#[test]
fn enumeration_of_one_entry_fails() {
    let tags = TypeSet::Single(SchemaType::String);
    for _ in 0..20 {
        assert_eq!(
            get_values_from_property(&tags, &None, &names(&["only"])),
            Err(SynthesisError::EmptyEnumRange)
        );
    }
    assert_eq!(
        synthesize_with(&tags, &None, &names(&["only"]), 0),
        Err(SynthesisError::EmptyEnumRange)
    );
}

#[test]
fn the_draw_picks_the_entry() {
    let tags = TypeSet::Single(SchemaType::Integer);
    let list = names(&["a", "b", "c"]);
    assert_eq!(synthesize_with(&tags, &None, &list, 0), Ok(LeafValue::Text("a".to_string())));
    assert_eq!(synthesize_with(&tags, &None, &list, 1), Ok(LeafValue::Text("b".to_string())));
}

#[test]
fn example_comes_before_enumeration_and_type() {
    let tags = TypeSet::Single(SchemaType::Object);
    let example = Some(Json::Bool(false));
    assert_eq!(
        get_values_from_property(&tags, &example, &names(&["only"])),
        Ok(LeafValue::Example(Json::Bool(false)))
    );
}

#[test]
fn placeholders_by_type() {
    let none: Vec<String> = vec![];
    let of = |tag| get_values_from_property(&TypeSet::Single(tag), &None, &none);
    assert_eq!(of(SchemaType::Boolean), Ok(LeafValue::Boolean(true)));
    assert_eq!(of(SchemaType::String), Ok(LeafValue::Text("asd".to_string())));
    assert_eq!(of(SchemaType::Number), Ok(LeafValue::Number("1.2".to_string())));
    assert_eq!(of(SchemaType::Integer), Ok(LeafValue::Integer(1)));
    assert_eq!(of(SchemaType::Array), Err(SynthesisError::UnsupportedType));
    assert_eq!(of(SchemaType::Object), Err(SynthesisError::UnsupportedType));
    assert_eq!(of(SchemaType::Null), Err(SynthesisError::UnsupportedType));
}

#[test]
fn a_list_of_tags_gives_the_placeholder_of_its_scalar_tag() {
    let none: Vec<String> = vec![];
    let of = |tags: Vec<SchemaType>| {
        get_values_from_property(&TypeSet::Multiple(tags), &None, &none)
    };
    assert_eq!(
        of(vec![SchemaType::String, SchemaType::Null]),
        Ok(LeafValue::Text("asd".to_string()))
    );
    assert_eq!(
        of(vec![SchemaType::Null, SchemaType::String]),
        Ok(LeafValue::Text("asd".to_string()))
    );
    assert_eq!(of(vec![SchemaType::Integer]), Ok(LeafValue::Integer(1)));
    assert_eq!(of(vec![SchemaType::Null, SchemaType::Integer]), Ok(LeafValue::Integer(1)));
    assert_eq!(
        of(vec![SchemaType::Number, SchemaType::Null]),
        Ok(LeafValue::Number("1.2".to_string()))
    );
    assert_eq!(of(vec![SchemaType::Null, SchemaType::Boolean]), Ok(LeafValue::Boolean(true)));
    assert_eq!(of(vec![]), Err(SynthesisError::UnsupportedType));
    assert_eq!(of(vec![SchemaType::Null]), Err(SynthesisError::UnsupportedType));
    assert_eq!(
        of(vec![SchemaType::Array, SchemaType::Object]),
        Err(SynthesisError::UnsupportedType)
    );
}

#[test]
fn of_two_scalar_tags_the_first_of_boolean_string_number_integer_decides() {
    let none: Vec<String> = vec![];
    let of = |tags: Vec<SchemaType>| {
        get_values_from_property(&TypeSet::Multiple(tags), &None, &none)
    };
    assert_eq!(
        of(vec![SchemaType::Integer, SchemaType::String]),
        Ok(LeafValue::Text("asd".to_string()))
    );
    assert_eq!(
        of(vec![SchemaType::Integer, SchemaType::Number]),
        Ok(LeafValue::Number("1.2".to_string()))
    );
    assert_eq!(
        of(vec![SchemaType::String, SchemaType::Boolean, SchemaType::Integer]),
        Ok(LeafValue::Boolean(true))
    );
}

#[test]
fn one_field_is_set_for_each_kind_of_value() {
    let text = get_property_value_object(&LeafValue::Text("t".to_string()));
    assert_eq!(text, PropertyValue { string: Some("t".to_string()), ..empty_value() });
    let int = get_property_value_object(&LeafValue::Integer(4));
    assert_eq!(int, PropertyValue { int: Some(4), ..empty_value() });
    let number = get_property_value_object(&LeafValue::Number("1.2".to_string()));
    assert_eq!(number, PropertyValue { number: Some("1.2".to_string()), ..empty_value() });
    let boolean = get_property_value_object(&LeafValue::Boolean(true));
    assert_eq!(boolean, PropertyValue { bool: Some(true), ..empty_value() });
    let example = get_property_value_object(&LeafValue::Example(Json::Null));
    assert_eq!(example, PropertyValue { serde_value: Some(Json::Null), ..empty_value() });
}

#[test]
fn a_leaf_is_written_as_its_first_field() {
    assert_eq!(empty_value().serialize(), Json::Text(String::new()));
    let all = PropertyValue {
        bool: Some(false),
        int: Some(3),
        number: Some("2.5".to_string()),
        string: Some("s".to_string()),
        serde_value: Some(Json::Null),
    };
    assert_eq!(all.serialize(), Json::Bool(false));
    let without_bool = PropertyValue { bool: None, ..all.duplicate() };
    assert_eq!(without_bool.serialize(), Json::Number(JsonNumber::Decimal("2.5".to_string())));
    let without_number = PropertyValue { number: None, ..without_bool.duplicate() };
    assert_eq!(without_number.serialize(), Json::Number(JsonNumber::Integer(3)));
    let without_int = PropertyValue { int: None, ..without_number.duplicate() };
    assert_eq!(without_int.serialize(), Json::Text("s".to_string()));
    let without_string = PropertyValue { string: None, ..without_int.duplicate() };
    assert_eq!(without_string.serialize(), Json::Null);
}

#[test]
fn scalar_schemas_are_single_properties() {
    assert_eq!(is_single_property(&leaf(SchemaType::String)), Ok(true));
    assert_eq!(is_single_property(&leaf(SchemaType::Integer)), Ok(true));
    assert_eq!(is_single_property(&leaf(SchemaType::Number)), Ok(true));
    assert_eq!(is_single_property(&leaf(SchemaType::Boolean)), Ok(true));
    assert_eq!(is_single_property(&leaf(SchemaType::Object)), Ok(false));
    assert_eq!(is_single_property(&leaf(SchemaType::Array)), Ok(false));
    let mut nullable = leaf(SchemaType::String);
    nullable.schema_type = Some(TypeSet::Multiple(vec![SchemaType::Null, SchemaType::String]));
    assert_eq!(is_single_property(&nullable), Ok(true));
    let mut untyped = leaf(SchemaType::String);
    untyped.schema_type = None;
    assert_eq!(is_single_property(&untyped), Err(SynthesisError::MissingTypeTag));
}

#[test]
fn a_property_is_synthesized_with_the_enumeration_of_its_parent() {
    let mut child = leaf(SchemaType::String);
    child.enum_values = names(&["own1", "own2"]);
    let parent = SchemaNode {
        schema_type: Some(TypeSet::Single(SchemaType::Object)),
        properties: vec![Property { name: "p".to_string(), schema: SchemaRef::Object(child) }],
        required: names(&["p"]),
        example: None,
        enum_values: names(&["outer", "unused"]),
        items: None,
    };
    let table = get_body_by_object_schema(&parent).ok().unwrap();
    assert_eq!(table.entries.len(), 1);
    assert_eq!(table.entries[0].value.string, Some("outer".to_string()));
}

#[test]
fn array_of_scalars_stands_at_the_marked_key() {
    let mut list = leaf(SchemaType::Array);
    list.items = Some(Box::new(SchemaRef::Object(leaf(SchemaType::Boolean))));
    let root = SchemaNode {
        schema_type: Some(TypeSet::Single(SchemaType::Object)),
        properties: vec![Property { name: "flags".to_string(), schema: SchemaRef::Object(list) }],
        required: names(&["flags"]),
        example: None,
        enum_values: vec![],
        items: None,
    };
    let table = get_body_by_object_schema(&root).ok().unwrap();
    assert_eq!(table.entries.len(), 1);
    assert_eq!(table.entries[0].key, "flags$array");
    assert_eq!(table.entries[0].value.bool, Some(true));
}

#[test]
fn unresolved_items_fail_and_absent_items_give_nothing() {
    let mut list = leaf(SchemaType::Array);
    assert_eq!(get_body_by_object_schema(&list).ok().unwrap().entries.len(), 0);
    list.items = Some(Box::new(SchemaRef::Unresolved { ref_path: "#/x".to_string() }));
    assert_eq!(get_body_by_object_schema(&list).err(), Some(SynthesisError::UnresolvableReference));
}

#[test]
fn a_key_that_is_inserted_again_keeps_its_row() {
    let mut table = FlatTable::new();
    assert_eq!(table.len(), 0);
    table.insert("a".to_string(), PropertyValue { int: Some(1), ..empty_value() });
    table.insert("b".to_string(), PropertyValue { int: Some(2), ..empty_value() });
    table.insert("a".to_string(), PropertyValue { int: Some(3), ..empty_value() });
    assert_eq!(table.len(), 2);
    assert_eq!(table.position(&"a".to_string()), Some(0));
    assert_eq!(table.position(&"c".to_string()), None);
    assert_eq!(table.get(&"a".to_string()).unwrap().int, Some(3));
    assert_eq!(table.get(&"b".to_string()).unwrap().int, Some(2));
    assert!(table.get(&"c".to_string()).is_none());
}
