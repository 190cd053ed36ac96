use mock_openapi::composite_objects::RequestObject;
use mock_openapi::json::Json;
use mock_openapi::request_validator::{
    check_difference, judge_difference, validate_request, DiscrepantEntry, Discrepancy,
    EntryDiscrepancy, ValidationFailure,
};

fn expecting(body: &str) -> RequestObject {
    let mut request = RequestObject::init();
    request.body = Some(body.to_string());
    request
}

#[test]
fn missing_top_level_key_is_listed() {
    let verdict = validate_request(&expecting("{\"a\":1,\"b\":2}"), "{\"a\":1}".to_string());
    let error = verdict.err().unwrap();
    assert_eq!(error.kind, ValidationFailure::MissingKeys);
    assert_eq!(error.missing_keys, vec!["b".to_string()]);
    assert_eq!(error.error_message, "Missing keys: b");
}

#[test]
fn extra_keys_are_ignored() {
    let verdict = validate_request(&expecting("{\"a\":1}"), "{\"a\":1,\"z\":9}".to_string());
    assert_eq!(verdict.ok(), Some(true));
}

#[test]
fn missing_nested_key_is_listed_by_its_own_name() {
    let verdict = validate_request(&expecting("{\"a\":{\"c\":1}}"), "{\"a\":{}}".to_string());
    let error = verdict.err().unwrap();
    assert_eq!(error.missing_keys, vec!["c".to_string()]);
    assert_eq!(error.error_message, "Missing keys: c");
}

#[test]
fn other_values_and_types_are_not_flagged() {
    let request = expecting("{\"a\":\"text\",\"b\":[1,2]}");
    assert_eq!(validate_request(&request, "{\"a\":5,\"b\":[]}".to_string()).ok(), Some(true));
}

#[test]
fn several_missing_keys_are_joined() {
    let request = expecting("{\"a\":{\"c\":1,\"d\":2},\"b\":2,\"e\":3}");
    let error = validate_request(&request, "{\"a\":{}}".to_string()).err().unwrap();
    assert_eq!(
        error.missing_keys,
        vec!["c".to_string(), "d".to_string(), "b".to_string(), "e".to_string()]
    );
    assert_eq!(error.error_message, "Missing keys: c, d, b, e");
}

#[test]
fn bodies_that_are_no_objects_are_malformed() {
    let request = expecting("{\"a\":1}");
    for body in ["", "not json", "[1]", "3", "\"a\""] {
        let error = validate_request(&request, body.to_string()).err().unwrap();
        assert_eq!(error.kind, ValidationFailure::MalformedBody);
        assert!(error.missing_keys.is_empty());
        assert_eq!(error.error_message, "Malformed body");
    }
    let error = validate_request(&RequestObject::init(), "{}".to_string()).err().unwrap();
    assert_eq!(error.kind, ValidationFailure::MalformedBody);
    let error = validate_request(&expecting("[]"), "{}".to_string()).err().unwrap();
    assert_eq!(error.kind, ValidationFailure::MalformedBody);
}

#[test]
fn judging_a_difference_by_hand() {
    let nested = Discrepancy::Object {
        different_entries: vec![
            DiscrepantEntry { key: "x".to_string(), entry: EntryDiscrepancy::Extra },
            DiscrepantEntry {
                key: "inner".to_string(),
                entry: EntryDiscrepancy::Missing { value: Json::Null },
            },
        ],
    };
    let diff = Discrepancy::Object {
        different_entries: vec![
            DiscrepantEntry {
                key: "a".to_string(),
                entry: EntryDiscrepancy::Value { value_diff: nested },
            },
            DiscrepantEntry {
                key: "s".to_string(),
                entry: EntryDiscrepancy::Value { value_diff: Discrepancy::Scalar },
            },
            DiscrepantEntry {
                key: "top".to_string(),
                entry: EntryDiscrepancy::Missing { value: Json::Bool(true) },
            },
        ],
    };
    let mut keys = vec!["before".to_string()];
    check_difference(&diff, &mut keys);
    assert_eq!(keys, vec!["before".to_string(), "inner".to_string(), "top".to_string()]);
    let error = judge_difference(&Some(diff)).err().unwrap();
    assert_eq!(error.error_message, "Missing keys: inner, top");
    assert_eq!(judge_difference(&None).ok(), Some(true));
    assert_eq!(judge_difference(&Some(Discrepancy::Array)).ok(), Some(true));
}
