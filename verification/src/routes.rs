//! The routes of a document and the reply to a request.
//!
//! The operations of a document come in as plain data, each with the schema
//! of its request body and of its response where it declares one.  Each becomes
//! a route with its mock bodies; a request is answered from the first route
//! that matches it.

use crate::composite_objects::{is_mock_body, RequestObject, ResponseObject};
use crate::flatten_model::sound;

use crate::request_validator::{
    json_difference, missing_keys_message, missing_names, object_in, validate_request,
    ValidationFailure,
};
use crate::schema::SchemaNode;
use vstd::prelude::*;

verus! {

/// The method of a request.
#[derive(Clone, Copy, Debug, PartialEq, Eq, Structural)]
pub enum Method {
    Options,
    Get,
    Post,
    Put,
    Delete,
    Head,
    Trace,
    Connect,
    Patch,
    /// Any other method.
    Extension,
}

/// One endpoint: a method and a path, with the descriptors of its request
/// and of its response where it has them.
#[derive(Clone, Debug)]
pub struct Path {
    pub request_object: Option<RequestObject>,
    pub response_object: Option<ResponseObject>,
    pub path: String,
    pub method: Method,
}

/// One operation of a document.  A side that the operation does not declare
/// is `None`; a side that it declares without a schema that can be used is
/// `Some(None)`.
#[derive(Debug)]
pub struct Operation {
    pub path: String,
    pub method: Method,
    pub request_schema: Option<Option<SchemaNode>>,
    pub response_schema: Option<Option<SchemaNode>>,
}

/// The reply to a request.
#[derive(Clone, Debug, PartialEq, Eq)]
pub struct Reply {
    pub status: u16,
    /// The content type, where the reply has one.
    pub content_type: Option<String>,
    pub body: String,
}

/// The view of a [`Reply`].
pub struct ReplyModel {
    pub status: int,
    pub content_type: Option<Seq<char>>,
    pub body: Seq<char>,
}

impl View for Reply {
    type V = ReplyModel;

    open spec fn view(&self) -> ReplyModel {
        ReplyModel {
            status: self.status as int,
            content_type: match self.content_type {
                Some(text) => Some(text@),
                None => None,
            },
            body: self.body@,
        }
    }
}

/// Whether a side of an operation can be mocked: it has no schema, or its
/// schema has no fault.
pub open spec fn side_sound(side: Option<Option<SchemaNode>>) -> bool {
    match side {
        Some(Some(schema)) => sound(schema),
        _ => true,
    }
}

/// Whether the operation becomes a route: both its sides can be mocked.
pub open spec fn served(operation: Operation) -> bool {
    side_sound(operation.request_schema) && side_sound(operation.response_schema)
}

/// Whether `route` is a route of the operation: the same method and path; a
/// request descriptor where the operation declares a request body, with a
/// mock body where it has a schema; and the same for the response, with the
/// status 200 beside the mock body.
pub open spec fn route_of(operation: Operation, route: Path) -> bool {
    &&& route.path@ == operation.path@
    &&& route.method == operation.method
    &&& match operation.request_schema {
        None => route.request_object is None,
        Some(None) => {
            &&& route.request_object matches Some(request)
            &&& request.bare()
            &&& request.body is None
        },
        Some(Some(schema)) => {
            &&& route.request_object matches Some(request)
            &&& request.bare()
            &&& request.body matches Some(text)
            &&& is_mock_body(schema, text@)
        },
    }
    &&& match operation.response_schema {
        None => route.response_object is None,
        Some(None) => {
            &&& route.response_object matches Some(response)
            &&& response.response is None
            &&& response.status_code is None
        },
        Some(Some(schema)) => {
            &&& route.response_object matches Some(response)
            &&& response.status_code == Some(200i16)
            &&& response.response matches Some(text)
            &&& is_mock_body(schema, text@)
        },
    }
}

/// Whether `routes` are the routes of the operations: one for each operation
/// that is served, in the order of the operations, and none for the others.
pub open spec fn routes_of(operations: Seq<Operation>, routes: Seq<Path>) -> bool
    decreases operations.len(),
{
    if operations.len() == 0 {
        routes.len() == 0
    } else if served(operations.last()) {
        &&& routes.len() > 0
        &&& route_of(operations.last(), routes.last())
        &&& routes_of(operations.drop_last(), routes.drop_last())
    } else {
        routes_of(operations.drop_last(), routes)
    }
}

/// The request side of a route.
fn request_side(side: &Option<Option<SchemaNode>>) -> (made: Option<Option<RequestObject>>)
    ensures
        made is Some <==> side_sound(*side),
        match made {
            Some(descriptor) => match *side {
                None => descriptor is None,
                Some(None) => {
                    &&& descriptor matches Some(request)
                    &&& request.bare()
                    &&& request.body is None
                },
                Some(Some(schema)) => {
                    &&& descriptor matches Some(request)
                    &&& request.bare()
                    &&& request.body matches Some(text)
                    &&& is_mock_body(schema, text@)
                },
            },
            None => true,
        },
{
    match side {
        None => Some(None),
        Some(schema) => match RequestObject::create_request_object_by_object_schema(schema) {
            Ok(request) => Some(Some(request)),
            Err(_) => None,
        },
    }
}

/// The response side of a route.
fn response_side(side: &Option<Option<SchemaNode>>) -> (made: Option<Option<ResponseObject>>)
    ensures
        made is Some <==> side_sound(*side),
        match made {
            Some(descriptor) => match *side {
                None => descriptor is None,
                Some(None) => {
                    &&& descriptor matches Some(response)
                    &&& response.response is None
                    &&& response.status_code is None
                },
                Some(Some(schema)) => {
                    &&& descriptor matches Some(response)
                    &&& response.status_code == Some(200i16)
                    &&& response.response matches Some(text)
                    &&& is_mock_body(schema, text@)
                },
            },
            None => true,
        },
{
    match side {
        None => Some(None),
        Some(schema) => match ResponseObject::create_response_object_by_object_schema(schema) {
            Ok(response) => Some(Some(response)),
            Err(_) => None,
        },
    }
}

/// The routes of a document: for each operation its route with the mock
/// bodies of its two sides.  An operation with a side that cannot be mocked
/// gets no route; the others are not affected.
pub fn get_paths_from_spec(operations: &Vec<Operation>) -> (paths: Vec<Path>)
    ensures
        routes_of(operations@, paths@),
{
    let mut paths: Vec<Path> = Vec::new();
    let mut i: usize = 0;
    assert(operations@.take(0) =~= Seq::<Operation>::empty());
    while i < operations.len()
        invariant
            i <= operations.len(),
            routes_of(operations@.take(i as int), paths@),
        decreases operations.len() - i,
    {
        let operation = &operations[i];
        let ghost before = paths@;
        proof {
            let next = operations@.take(i + 1);
            assert(next.drop_last() =~= operations@.take(i as int));
            assert(next.last() == operations@[i as int]);
        }
        let response_object = response_side(&operation.response_schema);
        let request_object = request_side(&operation.request_schema);
        match (request_object, response_object) {
            (Some(request_object), Some(response_object)) => {
                paths.push(
                    Path {
                        path: operation.path.clone(),
                        method: operation.method,
                        response_object,
                        request_object,
                    },
                );
                assert(paths@.drop_last() =~= before);
            },
            _ => {},
        }
        i += 1;
    }
    assert(operations@.take(i as int) =~= operations@);
    paths
}

/// The content type of every reply that has a body.
pub open spec fn json_content_type() -> Seq<char> {
    "application/json"@
}

/// The body that is served for a route without a mock body.
pub open spec fn no_response_body() -> Seq<char> {
    "No response"@
}

/// The reply with status 200 and the given body.
pub open spec fn ok_reply(body: Seq<char>) -> ReplyModel {
    ReplyModel { status: 200, content_type: Some(json_content_type()), body }
}

/// The reply with status 404 and no body.
pub open spec fn not_found_reply() -> ReplyModel {
    ReplyModel { status: 404, content_type: None, body: Seq::empty() }
}

/// The message with which the body of a request is turned down for missing
/// keys, `None` where it is not: where the route has no request descriptor,
/// where a body cannot be read, and where no key is missing.
pub open spec fn rejection(request: Option<RequestObject>, body: Seq<char>) -> Option<Seq<char>> {
    match request {
        Some(descriptor) => match (descriptor.body, object_in(body)) {
            (Some(expected_text), Some(actual)) => match object_in(expected_text@) {
                Some(expected) => match json_difference(actual, expected) {
                    Some(diff) => if missing_names(diff).len() > 0 {
                        Some(missing_keys_message(missing_names(diff)))
                    } else {
                        None
                    },
                    None => None,
                },
                None => None,
            },
            _ => None,
        },
        None => None,
    }
}

/// The body that a route serves: its mock body, or `No response` where it
/// has no response descriptor or the descriptor has no mock body.
pub open spec fn served_body(response: Option<ResponseObject>) -> Seq<char> {
    match response {
        Some(descriptor) => match descriptor.response {
            Some(text) => text@,
            None => no_response_body(),
        },
        None => no_response_body(),
    }
}

/// The reply to a request, from the routes at place `from` and after it.
///
/// The first route with the method and the path of the request decides, and
/// its reply has status 200.  On a POST route the body is checked first, and
/// missing keys are reported.  Otherwise the mock body is served, or
/// `No response` where the route has none.  Without a route the reply is
/// 404.
pub open spec fn reply_from(
    paths: Seq<Path>,
    from: int,
    method: Method,
    path: Seq<char>,
    body: Seq<char>,
) -> ReplyModel
    decreases paths.len() - from,
{
    if 0 <= from < paths.len() {
        let route = paths[from];
        if route.method == method && route.path@ == path {
            if route.method == Method::Post && rejection(route.request_object, body) is Some {
                ok_reply(rejection(route.request_object, body)->0)
            } else {
                ok_reply(served_body(route.response_object))
            }
        } else {
            reply_from(paths, from + 1, method, path, body)
        }
    } else {
        not_found_reply()
    }
}

/// The reply with status 200 and the given body.
fn ok_with(body: String) -> (reply: Reply)
    ensures
        reply@ == ok_reply(body@),
{
    Reply { status: 200, content_type: Some(String::from_str("application/json")), body }
}

/// Checks the body of a request on a POST route; the message where keys are
/// missing.
fn check_body(request_object: &Option<RequestObject>, body: &String) -> (message: Option<String>)
    ensures
        match message {
            Some(text) => rejection(*request_object, body@) == Some(text@),
            None => rejection(*request_object, body@) is None,
        },
{
    match request_object {
        Some(descriptor) => match validate_request(descriptor, body.clone()) {
            Ok(_) => None,
            Err(error) => match error.kind {
                ValidationFailure::MissingKeys => Some(error.error_message),
                ValidationFailure::MalformedBody => None,
            },
        },
        None => None,
    }
}

/// Answers a request from the routes.
pub fn echo(paths: &Vec<Path>, method: Method, path: &String, body: &String) -> (reply: Reply)
    ensures
        reply@ == reply_from(paths@, 0, method, path@, body@),
{
    let mut i: usize = 0;
    while i < paths.len()
        invariant
            i <= paths.len(),
            reply_from(paths@, 0, method, path@, body@) == reply_from(
                paths@,
                i as int,
                method,
                path@,
                body@,
            ),
        decreases paths.len() - i,
    {
        let route = &paths[i];
        if route.method == method && route.path == *path {
            if route.method == Method::Post {
                if let Some(message) = check_body(&route.request_object, body) {
                    return ok_with(message);
                }
            }
            let text = match &route.response_object {
                Some(ResponseObject { response: Some(text), .. }) => text.clone(),
                _ => String::from_str("No response"),
            };
            return ok_with(text);
        }
        i += 1;
    }
    Reply { status: 404, content_type: None, body: String::new() }
}

} // verus!
