//! What flattening a schema finds.
//!
//! A walk through a schema along required properties and array items finds
//! leaves, each with the key under which it will stand in the table, and
//! faults, the errors that stop the walk.  This file says which leaves and
//! which faults a schema has; the work list that collects them stands with
//! the code.

use crate::composite_objects::{distinct_rows, has_row, PropertyValueModel, Rows, TableEntryModel};
use crate::json::JsonModel;
use crate::object_reference_handler::{
    can_synthesize, enum_texts, example_model, leaf_fault, lemma_scalar_has_placeholder,
    property_value_of, LeafModel,
};
use crate::path_key::{child_key, items_key};
use crate::schema::{SchemaNode, SchemaRef, SynthesisError, TypeSet};
use vstd::prelude::*;

verus! {

/// One step on the way from a schema down to a leaf.
pub enum Step {
    /// Into the property at this place among the properties.
    Property(int),
    /// Into the items of an array.
    Items,
}

/// A leaf of a schema: the key under which it stands, the way that leads to
/// it, and what its value is made from.
pub struct LeafSlot {
    pub key: Seq<char>,
    pub path: Seq<Step>,
    pub type_set: TypeSet,
    pub example: Option<JsonModel>,
    pub enum_values: Seq<Seq<char>>,
}

/// What a walk through a schema can find.
pub enum Finding {
    Leaf(LeafSlot),
    Fault(SynthesisError),
}

/// What a scalar schema gives at `key`: the fault of its synthesis, or the
/// leaf.  The enumeration is handed in: below a property it is the parent's.
pub open spec fn leaf_finding(
    key: Seq<char>,
    path: Seq<Step>,
    type_set: TypeSet,
    example: Option<JsonModel>,
    enum_values: Seq<Seq<char>>,
) -> Finding {
    match leaf_fault(type_set, example, enum_values) {
        Some(e) => Finding::Fault(e),
        None => Finding::Leaf(LeafSlot { key, path, type_set, example, enum_values }),
    }
}

/// Whether the walk that starts at `node`, under the key `prefix` and after
/// the steps `trail`, finds `f`.
///
/// A schema without properties must have type tags.  If they are scalar, it
/// is a leaf at `prefix`.  If they say array and it has items, the walk goes
/// on into the items, under the key of the items.  A schema with properties
/// is walked property by property.
pub open spec fn finds(prefix: Seq<char>, trail: Seq<Step>, node: SchemaNode, f: Finding) -> bool
    decreases node, node.properties@.len() + 2,
{
    if node.properties@.len() == 0 {
        match node.schema_type {
            None => f == Finding::Fault(SynthesisError::MissingTypeTag),
            Some(tags) => {
                ||| tags.scalar() && f == leaf_finding(
                    prefix,
                    trail,
                    tags,
                    example_model(node.example),
                    enum_texts(node.enum_values@),
                )
                ||| tags.array_like() && match node.items {
                    Some(items) => match *items {
                        SchemaRef::Object(child) => finds(
                            items_key(prefix),
                            trail.push(Step::Items),
                            child,
                            f,
                        ),
                        SchemaRef::Unresolved { .. } => f == Finding::Fault(
                            SynthesisError::UnresolvableReference,
                        ),
                    },
                    None => false,
                }
            },
        }
    } else {
        finds_from(prefix, trail, node, 0, f)
    }
}

/// Whether the walk finds `f` at or below one of the properties of `node`
/// from place `from` on.
pub open spec fn finds_from(
    prefix: Seq<char>,
    trail: Seq<Step>,
    node: SchemaNode,
    from: int,
    f: Finding,
) -> bool
    decreases node, node.properties@.len() - from + 1,
{
    if 0 <= from < node.properties@.len() {
        finds_through(prefix, trail, node, from, f) || finds_from(prefix, trail, node, from + 1, f)
    } else {
        false
    }
}

/// Whether the walk finds `f` at or below the property at place `i` of
/// `node`.  Only a required property is walked.  Its schema must be there and
/// have type tags.  If they are scalar, the property is a leaf, synthesized
/// with the enumeration of `node`; otherwise the walk goes on into it.
pub open spec fn finds_through(
    prefix: Seq<char>,
    trail: Seq<Step>,
    node: SchemaNode,
    i: int,
    f: Finding,
) -> bool
    decreases node, 0int,
{
    &&& 0 <= i < node.properties@.len()
    &&& node.requires_name(node.properties@[i].name@)
    &&& match node.properties@[i].schema {
        SchemaRef::Unresolved { .. } => f == Finding::Fault(SynthesisError::UnresolvableReference),
        SchemaRef::Object(child) => match child.schema_type {
            None => f == Finding::Fault(SynthesisError::MissingTypeTag),
            Some(tags) => if tags.scalar() {
                f == leaf_finding(
                    child_key(prefix, node.properties@[i].name@),
                    trail.push(Step::Property(i)),
                    tags,
                    example_model(child.example),
                    enum_texts(node.enum_values@),
                )
            } else {
                finds(
                    child_key(prefix, node.properties@[i].name@),
                    trail.push(Step::Property(i)),
                    child,
                    f,
                )
            },
        },
    }
}

/// Whether `slot` is a leaf of the schema.
pub open spec fn is_leaf(root: SchemaNode, slot: LeafSlot) -> bool {
    finds(Seq::empty(), Seq::empty(), root, Finding::Leaf(slot))
}

/// Whether the schema has the fault `e`.
pub open spec fn has_fault(root: SchemaNode, e: SynthesisError) -> bool {
    finds(Seq::empty(), Seq::empty(), root, Finding::Fault(e))
}

/// The schema has no fault.
pub open spec fn sound(root: SchemaNode) -> bool {
    forall|e: SynthesisError| !has_fault(root, e)
}

/// Whether `value` is a leaf value that the synthesis can give for `slot`.
pub open spec fn fills(slot: LeafSlot, value: PropertyValueModel) -> bool {
    exists|leaf: LeafModel| #[trigger]
        can_synthesize(slot.type_set, slot.example, slot.enum_values, leaf) && value
            == property_value_of(leaf)
}

/// A value that the synthesis gives for a leaf has exactly one field set.
pub proof fn lemma_filled_value(slot: LeafSlot, value: PropertyValueModel)
    requires
        fills(slot, value),
    ensures
        value.populated() == 1,
        value.well_formed(),
{
    let leaf = choose|leaf: LeafModel| #[trigger]
        can_synthesize(slot.type_set, slot.example, slot.enum_values, leaf) && value
            == property_value_of(leaf);
    assert(value == property_value_of(leaf));
}

/// Whether a leaf of the schema stands at `key`.
pub open spec fn leaf_at(root: SchemaNode, key: Seq<char>) -> bool {
    exists|slot: LeafSlot| #[trigger] is_leaf(root, slot) && slot.key == key
}

/// Whether the row holds a value for a leaf of the schema that stands at the
/// row's key.
pub open spec fn row_of_leaf(root: SchemaNode, row: TableEntryModel) -> bool {
    exists|slot: LeafSlot| #[trigger]
        is_leaf(root, slot) && slot.key == row.key && fills(slot, row.value)
}

/// Whether the rows are a flat table of the schema: a row for each key at
/// which a leaf stands and for no other, no key twice, and in each row a
/// value that the synthesis can give for a leaf at that key.  Where several
/// leaves stand at one key, the row holds a value for one of them.
pub open spec fn flat_table_of(root: SchemaNode, rows: Rows) -> bool {
    &&& distinct_rows(rows)
    &&& forall|key: Seq<char>| #[trigger]
        has_row(rows, key) <==> leaf_at(root, key)
    &&& forall|r: int| 0 <= r < rows.len() ==> row_of_leaf(root, #[trigger] rows[r])
}

/// Whether every step of the way leads on as the walk does: a property step
/// goes into a required property that has a schema, an items step into the
/// items of a schema without properties.
pub open spec fn along_required(node: SchemaNode, path: Seq<Step>) -> bool
    decreases path.len(),
{
    if path.len() == 0 {
        true
    } else {
        match path[0] {
            Step::Property(i) => {
                &&& 0 <= i < node.properties@.len()
                &&& node.requires_name(node.properties@[i].name@)
                &&& node.properties@[i].schema matches SchemaRef::Object(child)
                &&& along_required(child, path.skip(1))
            },
            Step::Items => {
                &&& node.properties@.len() == 0
                &&& node.items matches Some(items)
                &&& *items matches SchemaRef::Object(child)
                &&& along_required(child, path.skip(1))
            },
        }
    }
}

/// The way of a leaf that the walk finds below `node` goes on from `trail`,
/// and what it adds leads through required properties and items only.
pub proof fn lemma_found_along_required(
    prefix: Seq<char>,
    trail: Seq<Step>,
    node: SchemaNode,
    slot: LeafSlot,
)
    requires
        finds(prefix, trail, node, Finding::Leaf(slot)),
    ensures
        trail.len() <= slot.path.len(),
        slot.path.take(trail.len() as int) == trail,
        along_required(node, slot.path.skip(trail.len() as int)),
    decreases node, node.properties@.len() + 2,
{
    let f = Finding::Leaf(slot);
    if node.properties@.len() == 0 {
        let tags = node.schema_type->0;
        if tags.scalar() && f == leaf_finding(
            prefix,
            trail,
            tags,
            example_model(node.example),
            enum_texts(node.enum_values@),
        ) {
            assert(slot.path.take(trail.len() as int) =~= trail);
            assert(slot.path.skip(trail.len() as int) =~= Seq::<Step>::empty());
        } else {
            let child = (*node.items->0)->Object_0;
            let longer = trail.push(Step::Items);
            lemma_found_along_required(items_key(prefix), longer, child, slot);
            lemma_one_more_step(node, trail, Step::Items, slot.path);
            let added = slot.path.skip(trail.len() as int);
            assert(added.len() > 0);
            assert(added[0] == Step::Items);
            assert(along_required(child, added.skip(1)));
        }
    } else {
        lemma_found_from(prefix, trail, node, 0, slot);
    }
}

/// The same for a leaf found at or below a property from place `from` on.
pub proof fn lemma_found_from(
    prefix: Seq<char>,
    trail: Seq<Step>,
    node: SchemaNode,
    from: int,
    slot: LeafSlot,
)
    requires
        finds_from(prefix, trail, node, from, Finding::Leaf(slot)),
    ensures
        trail.len() <= slot.path.len(),
        slot.path.take(trail.len() as int) == trail,
        along_required(node, slot.path.skip(trail.len() as int)),
    decreases node, node.properties@.len() - from + 1,
{
    let f = Finding::Leaf(slot);
    if finds_through(prefix, trail, node, from, f) {
        let child = node.properties@[from].schema->Object_0;
        let tags = child.schema_type->0;
        let longer = trail.push(Step::Property(from));
        if tags.scalar() {
            assert(slot.path == longer);
            assert(slot.path.take(longer.len() as int) =~= longer);
            assert(slot.path.skip(longer.len() as int) =~= Seq::<Step>::empty());
        } else {
            lemma_found_along_required(
                child_key(prefix, node.properties@[from].name@),
                longer,
                child,
                slot,
            );
        }
        lemma_one_more_step(node, trail, Step::Property(from), slot.path);
        let added = slot.path.skip(trail.len() as int);
        assert(added.len() > 0);
        assert(added[0] == Step::Property(from));
        assert(along_required(child, added.skip(1)));
    } else {
        lemma_found_from(prefix, trail, node, from + 1, slot);
    }
}

/// A way that goes on from `trail` with `step` goes on from `trail`, and what
/// it adds to `trail` is the step and what it adds after the step.
proof fn lemma_one_more_step(node: SchemaNode, trail: Seq<Step>, step: Step, path: Seq<Step>)
    requires
        trail.len() + 1 <= path.len(),
        path.take(trail.len() as int + 1) == trail.push(step),
    ensures
        path.take(trail.len() as int) == trail,
        path.skip(trail.len() as int)[0] == step,
        path.skip(trail.len() as int).skip(1) == path.skip(trail.len() as int + 1),
{
    let longer = trail.push(step);
    assert(path.take(trail.len() as int) =~= longer.take(trail.len() as int));
    assert(longer.take(trail.len() as int) =~= trail);
    assert(path[trail.len() as int] == longer[trail.len() as int]);
    assert(path.skip(trail.len() as int).skip(1) =~= path.skip(trail.len() as int + 1));
}

/// Every leaf of a schema lies behind required properties and the items of
/// arrays only: a property that its parent does not require is on the way to
/// no leaf, whatever stands below it.
pub proof fn lemma_leaves_are_required(root: SchemaNode, slot: LeafSlot)
    requires
        is_leaf(root, slot),
    ensures
        along_required(root, slot.path),
{
    lemma_found_along_required(Seq::empty(), Seq::empty(), root, slot);
    assert(slot.path.skip(0) =~= slot.path);
}

/// A table of the schema holds nothing from below a property that is not
/// required: each of its rows stands at the key of a leaf whose way leads
/// through required properties only.
pub proof fn lemma_rows_are_required(root: SchemaNode, rows: Rows, r: int)
    requires
        flat_table_of(root, rows),
        0 <= r < rows.len(),
    ensures
        exists|slot: LeafSlot| #[trigger]
            is_leaf(root, slot) && slot.key == rows[r].key && fills(slot, rows[r].value)
                && along_required(root, slot.path),
{
    assert(row_of_leaf(root, rows[r]));
    let slot = choose|slot: LeafSlot| #[trigger]
        is_leaf(root, slot) && slot.key == rows[r].key && fills(slot, rows[r].value);
    lemma_leaves_are_required(root, slot);
}

/// The walk never fails with `UnsupportedType`: a value is synthesized only
/// for type tags that hold a scalar tag, and those have a placeholder.
pub proof fn lemma_never_unsupported(prefix: Seq<char>, trail: Seq<Step>, node: SchemaNode)
    ensures
        !finds(prefix, trail, node, Finding::Fault(SynthesisError::UnsupportedType)),
    decreases node, node.properties@.len() + 2,
{
    let f = Finding::Fault(SynthesisError::UnsupportedType);
    if node.properties@.len() == 0 {
        if let Some(tags) = node.schema_type {
            lemma_scalar_has_placeholder(
                tags,
                example_model(node.example),
                enum_texts(node.enum_values@),
            );
            if tags.array_like() {
                if let Some(items) = node.items {
                    if let SchemaRef::Object(child) = *items {
                        lemma_never_unsupported(items_key(prefix), trail.push(Step::Items), child);
                    }
                }
            }
        }
    } else {
        lemma_never_unsupported_from(prefix, trail, node, 0);
    }
}

/// The same for the properties from place `from` on.
pub proof fn lemma_never_unsupported_from(
    prefix: Seq<char>,
    trail: Seq<Step>,
    node: SchemaNode,
    from: int,
)
    ensures
        !finds_from(prefix, trail, node, from, Finding::Fault(SynthesisError::UnsupportedType)),
    decreases node, node.properties@.len() - from + 1,
{
    if 0 <= from < node.properties@.len() {
        lemma_never_unsupported_from(prefix, trail, node, from + 1);
        if let SchemaRef::Object(child) = node.properties@[from].schema {
            if let Some(tags) = child.schema_type {
                lemma_scalar_has_placeholder(
                    tags,
                    example_model(child.example),
                    enum_texts(node.enum_values@),
                );
                if !tags.scalar() {
                    lemma_never_unsupported(
                        child_key(prefix, node.properties@[from].name@),
                        trail.push(Step::Property(from)),
                        child,
                    );
                }
            }
        }
        assert(!finds_through(
            prefix,
            trail,
            node,
            from,
            Finding::Fault(SynthesisError::UnsupportedType),
        ));
    }
}

/// No schema has the fault `UnsupportedType`.
pub proof fn lemma_no_unsupported_fault(root: SchemaNode)
    ensures
        !has_fault(root, SynthesisError::UnsupportedType),
{
    lemma_never_unsupported(Seq::empty(), Seq::empty(), root);
}

} // verus!
