//! Mock bodies from schemas.
//!
//! A schema is flattened into a table that maps dotted path keys to leaf
//! values ([`object_reference_handler`], specified in [`flatten_model`]); the
//! table is rebuilt into a nested JSON document ([`composite_objects`]); and
//! the body of a request is held against such a document
//! ([`request_validator`]).  [`routes`] makes the routes of a document and
//! answers requests from them.
//!
//! Schemas ([`schema`]) and JSON documents ([`json`]) are plain data.  JSON
//! text is read and written by `serde_json` ([`json_text`]), two documents are
//! compared by `serde_json_diff`, and an entry of an enumeration is drawn
//! with `rand`.  What holds of flattening, rebuilding and both together is
//! proved in [`flatten_model`], [`reconstruct_laws`], [`nesting_laws`],
//! [`round_trip`] and [`leaf_count`]; the
//! order in which the work list goes through a schema is in [`walk_order`],
//! and what the proof keeps account of on the way in [`work_list`].

pub mod composite_objects;
pub mod first_index;
pub mod flatten_model;
pub mod json;
pub mod json_text;
pub mod leaf_count;
pub mod nesting_laws;
pub mod object_reference_handler;
pub mod path_key;
pub mod reconstruct_laws;
pub mod request_validator;
pub mod round_trip;
pub mod routes;
pub mod schema;
pub mod walk_order;
pub mod work_list;
