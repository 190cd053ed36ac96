//! Schemas as plain data.
//!
//! A [`SchemaNode`] holds what the mock pipeline reads of a schema: its type
//! tags, its properties in their order, the names of the required ones, an
//! example, the strings of an enumeration, and the schema of the items of an
//! array.  The schema below a property or below `items` is a [`SchemaRef`]:
//! either the schema itself, or a reference that nothing could be found for.

use crate::json::Json;
use vstd::prelude::*;

verus! {

/// One type tag.
#[derive(Clone, Copy, Debug, PartialEq, Eq, Structural)]
pub enum SchemaType {
    Boolean,
    Integer,
    Number,
    String,
    Array,
    Object,
    Null,
}

/// The type tags of a schema: one tag, or a list of tags.
#[derive(Debug, PartialEq, Eq)]
pub enum TypeSet {
    Single(SchemaType),
    Multiple(Vec<SchemaType>),
}

/// What went wrong while a mock body was made from a schema.
#[derive(Clone, Copy, Debug, PartialEq, Eq, Structural)]
pub enum SynthesisError {
    /// A reference on the way to a required leaf has no schema.
    UnresolvableReference,
    /// A schema on the way has no type tags.
    MissingTypeTag,
    /// A value is asked for type tags, without example and enumeration, that
    /// hold none of string, integer, number, boolean.
    UnsupportedType,
    /// A leaf whose enumeration has one entry: the last entry is never
    /// chosen, so nothing is left to choose from.
    EmptyEnumRange,
}

/// The schema below a property or below `items`.
#[derive(Debug, PartialEq, Eq)]
pub enum SchemaRef {
    /// The schema itself.
    Object(SchemaNode),
    /// A reference that could not be resolved, with its path.
    Unresolved { ref_path: String },
}

/// A property of an object schema.
#[derive(Debug, PartialEq, Eq)]
pub struct Property {
    pub name: String,
    pub schema: SchemaRef,
}

/// A schema.
#[derive(Debug, PartialEq, Eq)]
pub struct SchemaNode {
    pub schema_type: Option<TypeSet>,
    pub properties: Vec<Property>,
    pub required: Vec<String>,
    pub example: Option<Json>,
    pub enum_values: Vec<String>,
    pub items: Option<Box<SchemaRef>>,
}

/// Whether the tag stands in the list.
pub fn tag_among(tags: &Vec<SchemaType>, tag: SchemaType) -> (found: bool)
    ensures
        found == exists|i: int| 0 <= i < tags@.len() && tags@[i] == tag,
{
    let mut i: usize = 0;
    while i < tags.len()
        invariant
            i <= tags.len(),
            forall|k: int| 0 <= k < i ==> tags@[k] != tag,
        decreases tags.len() - i,
    {
        if tags[i] == tag {
            assert(tags@[i as int] == tag);
            return true;
        }
        i += 1;
    }
    false
}

impl TypeSet {
    /// Whether the tag is among the tags.
    pub open spec fn has(&self, tag: SchemaType) -> bool {
        match self {
            TypeSet::Single(single) => *single == tag,
            TypeSet::Multiple(tags) => exists|i: int| 0 <= i < tags@.len() && tags@[i] == tag,
        }
    }

    /// Whether the tags say array, or array and null.
    pub open spec fn array_like(&self) -> bool {
        match self {
            TypeSet::Single(single) => *single == SchemaType::Array,
            TypeSet::Multiple(tags) => tags@ == seq![SchemaType::Array] || tags@ == seq![
                SchemaType::Array,
                SchemaType::Null,
            ] || tags@ == seq![SchemaType::Null, SchemaType::Array],
        }
    }

    /// Whether one of the tags is string, integer, number or boolean.
    pub open spec fn scalar(&self) -> bool {
        self.has(SchemaType::String) || self.has(SchemaType::Integer) || self.has(
            SchemaType::Number,
        ) || self.has(SchemaType::Boolean)
    }

    /// Whether the tag is among the tags.
    pub fn contains(&self, tag: SchemaType) -> (found: bool)
        ensures
            found == self.has(tag),
    {
        match self {
            TypeSet::Single(single) => *single == tag,
            TypeSet::Multiple(tags) => tag_among(tags, tag),
        }
    }

    /// Whether the tags say array, or array and null.
    pub fn is_array_or_nullable_array(&self) -> (found: bool)
        ensures
            found == self.array_like(),
    {
        match self {
            TypeSet::Single(single) => *single == SchemaType::Array,
            TypeSet::Multiple(tags) => {
                if tags.len() == 1 {
                    let found = tags[0] == SchemaType::Array;
                    assert(found ==> tags@ =~= seq![SchemaType::Array]);
                    found
                } else if tags.len() == 2 {
                    let found = (tags[0] == SchemaType::Array && tags[1] == SchemaType::Null) || (
                    tags[0] == SchemaType::Null && tags[1] == SchemaType::Array);
                    assert(found ==> tags@ =~= seq![SchemaType::Array, SchemaType::Null] || tags@
                        =~= seq![SchemaType::Null, SchemaType::Array]);
                    found
                } else {
                    false
                }
            },
        }
    }
}

impl SchemaRef {
    /// The schema behind the reference, or `UnresolvableReference`.
    pub fn resolve(&self) -> (resolved: Result<&SchemaNode, SynthesisError>)
        ensures
            match self {
                SchemaRef::Object(node) => resolved == Ok::<&SchemaNode, SynthesisError>(node),
                SchemaRef::Unresolved { .. } => resolved == Err::<&SchemaNode, SynthesisError>(
                    SynthesisError::UnresolvableReference,
                ),
            },
    {
        match self {
            SchemaRef::Object(node) => Ok(node),
            SchemaRef::Unresolved { .. } => Err(SynthesisError::UnresolvableReference),
        }
    }
}

/// Whether no two properties of the schema have the same name.
pub open spec fn distinct_names(node: SchemaNode) -> bool {
    forall|i: int, j: int|
        0 <= i < node.properties@.len() && 0 <= j < node.properties@.len() && i != j ==> (
        #[trigger] node.properties@[i]).name@ != (#[trigger] node.properties@[j]).name@
}

/// Whether the schema is well formed: its properties are a map from names,
/// so no two of them have the same name, in the schema and in every schema
/// below it.
pub open spec fn well_formed(node: SchemaNode) -> bool
    decreases node, node.properties@.len() + 2,
{
    &&& distinct_names(node)
    &&& well_formed_from(node, 0)
    &&& match node.items {
        Some(items) => match *items {
            SchemaRef::Object(child) => well_formed(child),
            SchemaRef::Unresolved { .. } => true,
        },
        None => true,
    }
}

/// Whether the schemas below the properties from place `from` on are well
/// formed.
pub open spec fn well_formed_from(node: SchemaNode, from: int) -> bool
    decreases node, node.properties@.len() - from + 1,
{
    if 0 <= from < node.properties@.len() {
        &&& match node.properties@[from].schema {
            SchemaRef::Object(child) => well_formed(child),
            SchemaRef::Unresolved { .. } => true,
        }
        &&& well_formed_from(node, from + 1)
    } else {
        true
    }
}

/// The schema below each property of a well-formed schema is well formed.
pub proof fn lemma_well_formed_below(node: SchemaNode, from: int, i: int)
    requires
        well_formed_from(node, from),
        0 <= from <= i < node.properties@.len(),
    ensures
        match node.properties@[i].schema {
            SchemaRef::Object(child) => well_formed(child),
            SchemaRef::Unresolved { .. } => true,
        },
    decreases i - from,
{
    if from < i {
        lemma_well_formed_below(node, from + 1, i);
    }
}

impl SchemaNode {
    /// Whether the name is in the required list.
    pub open spec fn requires_name(&self, name: Seq<char>) -> bool {
        exists|i: int| 0 <= i < self.required@.len() && self.required@[i]@ == name
    }

    /// Whether the name is in the required list.
    pub fn is_required(&self, name: &String) -> (found: bool)
        ensures
            found == self.requires_name(name@),
    {
        let mut i: usize = 0;
        while i < self.required.len()
            invariant
                i <= self.required.len(),
                forall|k: int| 0 <= k < i ==> self.required@[k]@ != name@,
            decreases self.required.len() - i,
        {
            if self.required[i] == *name {
                assert(self.required@[i as int]@ == name@);
                return true;
            }
            i += 1;
        }
        false
    }
}

} // verus!
