use mock_openapi::composite_objects::{RequestObject, ResponseObject};
use mock_openapi::routes::{echo, get_paths_from_spec, Method, Operation, Path, Reply};
use mock_openapi::schema::{Property, SchemaNode, SchemaRef, SchemaType, TypeSet};

fn leaf(tag: SchemaType) -> SchemaNode {
    SchemaNode {
        schema_type: Some(TypeSet::Single(tag)),
        properties: vec![],
        required: vec![],
        example: None,
        enum_values: vec![],
        items: None,
    }
}

fn object(properties: Vec<(&str, SchemaNode)>, required: Vec<&str>) -> SchemaNode {
    SchemaNode {
        schema_type: Some(TypeSet::Single(SchemaType::Object)),
        properties: properties
            .into_iter()
            .map(|(name, schema)| Property {
                name: name.to_string(),
                schema: SchemaRef::Object(schema),
            })
            .collect(),
        required: required.into_iter().map(|name| name.to_string()).collect(),
        example: None,
        enum_values: vec![],
        items: None,
    }
}

fn ok(body: &str) -> Reply {
    Reply {
        status: 200,
        content_type: Some("application/json".to_string()),
        body: body.to_string(),
    }
}

fn not_found() -> Reply {
    Reply { status: 404, content_type: None, body: String::new() }
}

fn ask(paths: &Vec<Path>, method: Method, path: &str, body: &str) -> Reply {
    echo(paths, method, &path.to_string(), &body.to_string())
}

fn id_schema() -> SchemaNode {
    object(vec![("id", leaf(SchemaType::Integer))], vec!["id"])
}

#[test]
fn get_route_serves_the_mock_body() {
    let operations = vec![Operation {
        path: "/items".to_string(),
        method: Method::Get,
        request_schema: None,
        response_schema: Some(Some(id_schema())),
    }];
    let paths = get_paths_from_spec(&operations);
    assert_eq!(paths.len(), 1);
    assert_eq!(paths[0].path, "/items");
    assert_eq!(paths[0].method, Method::Get);
    assert!(paths[0].request_object.is_none());
    assert_eq!(ask(&paths, Method::Get, "/items", ""), ok("{\"id\":1}"));
}

#[test]
fn undeclared_path_or_method_is_not_found() {
    let operations = vec![Operation {
        path: "/items".to_string(),
        method: Method::Get,
        request_schema: None,
        response_schema: Some(Some(id_schema())),
    }];
    let paths = get_paths_from_spec(&operations);
    assert_eq!(ask(&paths, Method::Get, "/other", ""), not_found());
    assert_eq!(ask(&paths, Method::Post, "/items", "{}"), not_found());
    assert_eq!(ask(&paths, Method::Delete, "/items", ""), not_found());
    assert_eq!(ask(&vec![], Method::Get, "/items", ""), not_found());
}

#[test]
fn post_with_missing_keys_is_answered_with_the_message() {
    let operations = vec![Operation {
        path: "/items".to_string(),
        method: Method::Post,
        request_schema: Some(Some(object(
            vec![("name", leaf(SchemaType::String)), ("id", leaf(SchemaType::Integer))],
            vec!["name", "id"],
        ))),
        response_schema: Some(Some(id_schema())),
    }];
    let paths = get_paths_from_spec(&operations);
    assert_eq!(paths[0].request_object.as_ref().unwrap().body, Some("{\"id\":1,\"name\":\"asd\"}".to_string()));
    assert_eq!(ask(&paths, Method::Post, "/items", "{\"id\":7}"), ok("Missing keys: name"));
    assert_eq!(
        ask(&paths, Method::Post, "/items", "{\"name\":\"n\",\"id\":7,\"more\":1}"),
        ok("{\"id\":1}")
    );
    assert_eq!(ask(&paths, Method::Post, "/items", "not json"), ok("{\"id\":1}"));
}

#[test]
fn route_without_response_schema_says_no_response() {
    let operations = vec![Operation {
        path: "/ping".to_string(),
        method: Method::Get,
        request_schema: None,
        response_schema: Some(None),
    }];
    let paths = get_paths_from_spec(&operations);
    assert_eq!(ask(&paths, Method::Get, "/ping", ""), ok("No response"));
}

#[test]
fn the_first_matching_route_decides() {
    let first = Path {
        request_object: None,
        response_object: None,
        path: "/a".to_string(),
        method: Method::Get,
    };
    let second = Path {
        request_object: None,
        response_object: Some(ResponseObject {
            response: Some("{}".to_string()),
            status_code: Some(200),
        }),
        path: "/a".to_string(),
        method: Method::Get,
    };
    assert_eq!(ask(&vec![first.clone(), second.clone()], Method::Get, "/a", ""), ok("No response"));
    assert_eq!(ask(&vec![second, first.clone()], Method::Get, "/a", ""), ok("{}"));
    assert_eq!(ask(&vec![first], Method::Get, "/a", ""), ok("No response"));
}

#[test]
fn post_route_without_request_descriptor_is_not_checked() {
    let route = Path {
        request_object: None,
        response_object: Some(ResponseObject { response: None, status_code: None }),
        path: "/a".to_string(),
        method: Method::Post,
    };
    assert_eq!(ask(&vec![route], Method::Post, "/a", "anything"), ok("No response"));
    let unreadable = Path {
        request_object: Some(RequestObject::init()),
        response_object: Some(ResponseObject { response: None, status_code: None }),
        path: "/a".to_string(),
        method: Method::Post,
    };
    assert_eq!(ask(&vec![unreadable], Method::Post, "/a", "{}"), ok("No response"));
}

#[test]
fn an_operation_that_cannot_be_mocked_gets_no_route() {
    let mut broken = leaf(SchemaType::String);
    broken.schema_type = None;
    let operations = vec![
        Operation {
            path: "/broken".to_string(),
            method: Method::Get,
            request_schema: None,
            response_schema: Some(Some(broken)),
        },
        Operation {
            path: "/fine".to_string(),
            method: Method::Get,
            request_schema: Some(None),
            response_schema: None,
        },
    ];
    let paths = get_paths_from_spec(&operations);
    assert_eq!(paths.len(), 1);
    assert_eq!(paths[0].path, "/fine");
    assert!(paths[0].response_object.is_none());
    let request = paths[0].request_object.as_ref().unwrap();
    assert_eq!(request.body, None);
    assert_eq!(ask(&paths, Method::Get, "/broken", ""), not_found());
    assert_eq!(ask(&paths, Method::Get, "/fine", ""), ok("No response"));
}
