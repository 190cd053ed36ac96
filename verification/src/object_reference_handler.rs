//! From a schema to a flat table of leaves.
//!
//! The value of a leaf comes from its example, else from its enumeration,
//! else from its type.  A schema is flattened with a work list: a schema
//! without properties gives a leaf or leads on to the items of an array; a
//! schema with properties gives a leaf for each required scalar property and
//! leads on to each other required property.

use crate::composite_objects::{
    has_row, put_row, row_keys, FlatTable, PropertyValue, PropertyValueModel,
};
use crate::first_index::lemma_first_index;
use crate::flatten_model::{
    fills, finds, finds_through, flat_table_of, has_fault, is_leaf, leaf_at, leaf_finding,
    row_of_leaf, sound, Finding, LeafSlot, Step,
};
use crate::json::{Json, JsonModel};
use crate::path_key::{make_child_key, make_items_key};
use crate::schema::{SchemaNode, SchemaType, SynthesisError, TypeSet};
use crate::walk_order::{
    ahead, first_fault, items_fault, lemma_ahead_alone, lemma_ahead_end, lemma_ahead_items,
    lemma_ahead_pop, lemma_ahead_properties, lemma_ahead_step, lemma_ordered_emit,
    lemma_ordered_end, lemma_ordered_fault, lemma_ordered_start, met_at, ordered, own_leaf,
    pushed, pushed_alone, pushed_at, start, table_in_order, walk,
};
use crate::work_list::{
    backed, key_done, lemma_emit, lemma_queued_empty, lemma_queued_push, lemma_shift,
    lemma_properties_end, lemma_staged_step, lemma_total_weight_push, lemma_whole_is_properties,
    progress, properties_weight, queued, settled, staged, total_weight, waiting, weight, Stage,
    Visit,
};
use rand::Rng;
use vstd::prelude::*;

verus! {

/// A synthesized value before it is put into a [`PropertyValue`].
#[derive(Debug, PartialEq, Eq)]
pub enum LeafValue {
    Text(String),
    Integer(i32),
    /// A number, as the text of its decimal literal.
    Number(String),
    Boolean(bool),
    Example(Json),
}

/// The view of a [`LeafValue`].
pub enum LeafModel {
    Text(Seq<char>),
    Integer(int),
    Number(Seq<char>),
    Boolean(bool),
    Example(JsonModel),
}

impl View for LeafValue {
    type V = LeafModel;

    open spec fn view(&self) -> LeafModel {
        match self {
            LeafValue::Text(text) => LeafModel::Text(text@),
            LeafValue::Integer(i) => LeafModel::Integer(*i as int),
            LeafValue::Number(text) => LeafModel::Number(text@),
            LeafValue::Boolean(b) => LeafModel::Boolean(*b),
            LeafValue::Example(value) => LeafModel::Example(value@),
        }
    }
}

/// The string that stands for a string leaf: `asd`.
pub open spec fn text_placeholder() -> Seq<char> {
    seq!['a', 's', 'd']
}

/// The literal that stands for a number leaf: `1.2`.
pub open spec fn number_placeholder() -> Seq<char> {
    seq!['1', '.', '2']
}

/// The integer that stands for an integer leaf.
pub open spec fn integer_placeholder() -> int {
    1
}

/// How many entries of an enumeration can be chosen: all but the last.
pub open spec fn choices(enum_values: Seq<Seq<char>>) -> int {
    enum_values.len() - 1
}

/// The placeholder that the type tags give: that of the first of boolean,
/// string, number and integer that is among the tags, whether the tags are a
/// single tag or a list; none where none of the four is among them.  A
/// nullable string thus gives the string placeholder, and tags that hold
/// both string and integer give the string placeholder as well.
pub open spec fn placeholder(type_set: TypeSet) -> Option<LeafModel> {
    if type_set.has(SchemaType::Boolean) {
        Some(LeafModel::Boolean(true))
    } else if type_set.has(SchemaType::String) {
        Some(LeafModel::Text(text_placeholder()))
    } else if type_set.has(SchemaType::Number) {
        Some(LeafModel::Number(number_placeholder()))
    } else if type_set.has(SchemaType::Integer) {
        Some(LeafModel::Integer(integer_placeholder()))
    } else {
        None
    }
}

/// The value of a leaf, given the number that was drawn.
///
/// An example is taken as it is.  Without one, an enumeration gives the entry
/// at the place drawn among all but its last, and `EmptyEnumRange` where it
/// has a single entry.  Without either, the type tags give their
/// placeholder, and `UnsupportedType` where none of boolean, string, number
/// and integer is among them.
pub open spec fn synthesized(
    type_set: TypeSet,
    example: Option<JsonModel>,
    enum_values: Seq<Seq<char>>,
    draw: int,
) -> Result<LeafModel, SynthesisError> {
    if let Some(value) = example {
        Ok(LeafModel::Example(value))
    } else if enum_values.len() > 0 {
        if choices(enum_values) == 0 {
            Err(SynthesisError::EmptyEnumRange)
        } else {
            Ok(LeafModel::Text(enum_values[draw]))
        }
    } else {
        match placeholder(type_set) {
            Some(leaf) => Ok(leaf),
            None => Err(SynthesisError::UnsupportedType),
        }
    }
}

/// Whether a number has to be drawn for the leaf.
pub open spec fn needs_draw(example: Option<JsonModel>, enum_values: Seq<Seq<char>>) -> bool {
    example is None && choices(enum_values) > 0
}

/// The error with which the synthesis of a leaf fails, whatever is drawn.
pub open spec fn leaf_fault(
    type_set: TypeSet,
    example: Option<JsonModel>,
    enum_values: Seq<Seq<char>>,
) -> Option<SynthesisError> {
    match synthesized(type_set, example, enum_values, 0) {
        Ok(_) => None,
        Err(e) => Some(e),
    }
}

/// Whether `leaf` is a value that the synthesis of the leaf can give: the
/// value for one of the numbers that can be drawn.
pub open spec fn can_synthesize(
    type_set: TypeSet,
    example: Option<JsonModel>,
    enum_values: Seq<Seq<char>>,
    leaf: LeafModel,
) -> bool {
    if needs_draw(example, enum_values) {
        exists|draw: int|
            0 <= draw < choices(enum_values) && #[trigger] synthesized(
                type_set,
                example,
                enum_values,
                draw,
            ) == Ok::<LeafModel, SynthesisError>(leaf)
    } else {
        synthesized(type_set, example, enum_values, 0) == Ok::<LeafModel, SynthesisError>(leaf)
    }
}

/// The views of the entries of an enumeration.
pub open spec fn enum_texts(enum_values: Seq<String>) -> Seq<Seq<char>> {
    Seq::new(enum_values.len(), |i: int| enum_values[i]@)
}

/// The view of an optional example.
pub open spec fn example_model(example: Option<Json>) -> Option<JsonModel> {
    match example {
        Some(value) => Some(value@),
        None => None,
    }
}

/// Type tags give a placeholder exactly where one of them is scalar: of a
/// schema that counts as a leaf, the synthesis never fails with
/// `UnsupportedType`.
pub proof fn lemma_scalar_has_placeholder(
    type_set: TypeSet,
    example: Option<JsonModel>,
    enum_values: Seq<Seq<char>>,
)
    ensures
        placeholder(type_set) is Some <==> type_set.scalar(),
        type_set.scalar() ==> leaf_fault(type_set, example, enum_values) != Some(
            SynthesisError::UnsupportedType,
        ),
        leaf_fault(type_set, example, enum_values) is Some ==> (example is None && (
        enum_values.len() == 1 || (enum_values.len() == 0 && !type_set.scalar()))),
{
}

/// An enumeration of two entries or more always gives an entry, and the
/// entry stands before the last place; where no entry occurs twice, it is
/// not the last entry.  An enumeration of one entry gives no value at all:
/// the synthesis fails with `EmptyEnumRange`, whatever is drawn.
pub proof fn lemma_enum_selection(type_set: TypeSet, enum_values: Seq<Seq<char>>, leaf: LeafModel)
    ensures
        enum_values.len() >= 2 ==> leaf_fault(type_set, None, enum_values) is None,
        enum_values.len() >= 2 && can_synthesize(type_set, None, enum_values, leaf) ==> exists|
            i: int,
        |
            0 <= i < enum_values.len() - 1 && leaf == LeafModel::Text(#[trigger] enum_values[i]),
        enum_values.len() >= 2 && enum_values.no_duplicates() && can_synthesize(
            type_set,
            None,
            enum_values,
            leaf,
        ) ==> leaf != LeafModel::Text(enum_values.last()),
        enum_values.len() == 1 ==> leaf_fault(type_set, None, enum_values) == Some(
            SynthesisError::EmptyEnumRange,
        ) && !can_synthesize(type_set, None, enum_values, leaf),
        enum_values.len() == 1 ==> forall|draw: int|
            synthesized(type_set, None, enum_values, draw) == Err::<LeafModel, SynthesisError>(
                SynthesisError::EmptyEnumRange,
            ),
{
    if enum_values.len() >= 2 && can_synthesize(type_set, None, enum_values, leaf) {
        let draw = choose|draw: int|
            0 <= draw < choices(enum_values) && #[trigger] synthesized(
                type_set,
                None,
                enum_values,
                draw,
            ) == Ok::<LeafModel, SynthesisError>(leaf);
        assert(leaf == LeafModel::Text(enum_values[draw]));
    }
}

/// Draws a number below `bound` with `rand::thread_rng().gen_range(0..bound)`.
/// The contract claims only that the number is below the bound; two calls
/// may differ.  An empty range makes `gen_range` panic, so the bound is
/// positive.  `thread_rng` needs entropy from the system when a thread uses
/// it first and panics where the system gives none; no condition on the
/// bound can rule that out.
#[verifier::external_body]
fn random_below(bound: usize) -> (index: usize)
    requires
        bound > 0,
    ensures
        index < bound,
{
    rand::thread_rng().gen_range(0..bound)
}

/// The value of a leaf for the number `draw`, which counts only where the
/// leaf has no example and its enumeration has two entries or more.
pub fn synthesize_with(
    type_set: &TypeSet,
    example: &Option<Json>,
    enum_values: &Vec<String>,
    draw: usize,
) -> (value: Result<LeafValue, SynthesisError>)
    requires
        needs_draw(example_model(*example), enum_texts(enum_values@)) ==> draw < choices(
            enum_texts(enum_values@),
        ),
    ensures
        match value {
            Ok(leaf) => synthesized(
                *type_set,
                example_model(*example),
                enum_texts(enum_values@),
                draw as int,
            ) == Ok::<LeafModel, SynthesisError>(leaf@),
            Err(e) => synthesized(
                *type_set,
                example_model(*example),
                enum_texts(enum_values@),
                draw as int,
            ) == Err::<LeafModel, SynthesisError>(e),
        },
{
    if let Some(value) = example {
        return Ok(LeafValue::Example(value.duplicate()));
    }
    if enum_values.len() > 0 {
        if enum_values.len() == 1 {
            return Err(SynthesisError::EmptyEnumRange);
        }
        return Ok(LeafValue::Text(enum_values[draw].clone()));
    }
    if type_set.contains(SchemaType::Boolean) {
        Ok(LeafValue::Boolean(true))
    } else if type_set.contains(SchemaType::String) {
        proof {
            reveal_strlit("asd");
        }
        let text = String::from_str("asd");
        assert(text@ =~= text_placeholder());
        Ok(LeafValue::Text(text))
    } else if type_set.contains(SchemaType::Number) {
        proof {
            reveal_strlit("1.2");
        }
        let text = String::from_str("1.2");
        assert(text@ =~= number_placeholder());
        Ok(LeafValue::Number(text))
    } else if type_set.contains(SchemaType::Integer) {
        Ok(LeafValue::Integer(1))
    } else {
        Err(SynthesisError::UnsupportedType)
    }
}

/// The value of a leaf: its example; else an entry of its enumeration, drawn
/// at random among all but the last; else the placeholder of its type.
pub fn get_values_from_property(
    type_set: &TypeSet,
    example: &Option<Json>,
    enum_values: &Vec<String>,
) -> (value: Result<LeafValue, SynthesisError>)
    ensures
        match value {
            Ok(leaf) => can_synthesize(
                *type_set,
                example_model(*example),
                enum_texts(enum_values@),
                leaf@,
            ),
            Err(e) => leaf_fault(*type_set, example_model(*example), enum_texts(enum_values@))
                == Some(e),
        },
        value is Ok <==> leaf_fault(*type_set, example_model(*example), enum_texts(enum_values@))
            is None,
{
    let draw = if example.is_none() && enum_values.len() > 1 {
        random_below(enum_values.len() - 1)
    } else {
        0
    };
    synthesize_with(type_set, example, enum_values, draw)
}

/// The leaf that holds a synthesized value: the one field that matches the
/// kind of the value is set.
pub open spec fn property_value_of(leaf: LeafModel) -> PropertyValueModel {
    let empty = PropertyValueModel {
        bool: None,
        int: None,
        number: None,
        string: None,
        serde_value: None,
    };
    match leaf {
        LeafModel::Text(text) => PropertyValueModel { string: Some(text), ..empty },
        LeafModel::Integer(i) => PropertyValueModel { int: Some(i), ..empty },
        LeafModel::Number(text) => PropertyValueModel { number: Some(text), ..empty },
        LeafModel::Boolean(b) => PropertyValueModel { bool: Some(b), ..empty },
        LeafModel::Example(value) => PropertyValueModel { serde_value: Some(value), ..empty },
    }
}

/// Puts a synthesized value into a [`PropertyValue`].
pub fn get_property_value_object(value: &LeafValue) -> (property: PropertyValue)
    ensures
        property@ == property_value_of(value@),
        property@.populated() == 1,
{
    match value {
        LeafValue::Text(text) => PropertyValue {
            bool: None,
            number: None,
            int: None,
            string: Some(text.clone()),
            serde_value: None,
        },
        LeafValue::Integer(i) => PropertyValue {
            bool: None,
            number: None,
            int: Some(*i),
            string: None,
            serde_value: None,
        },
        LeafValue::Number(text) => PropertyValue {
            bool: None,
            number: Some(text.clone()),
            int: None,
            string: None,
            serde_value: None,
        },
        LeafValue::Boolean(b) => PropertyValue {
            bool: Some(*b),
            number: None,
            int: None,
            string: None,
            serde_value: None,
        },
        LeafValue::Example(example) => PropertyValue {
            bool: None,
            number: None,
            int: None,
            string: None,
            serde_value: Some(example.duplicate()),
        },
    }
}

/// Whether the schema is a leaf: one of its type tags is string, integer,
/// number or boolean.  A schema without type tags gives `MissingTypeTag`.
pub fn is_single_property(object_schema: &SchemaNode) -> (single: Result<bool, SynthesisError>)
    ensures
        match object_schema.schema_type {
            Some(tags) => single == Ok::<bool, SynthesisError>(tags.scalar()),
            None => single == Err::<bool, SynthesisError>(SynthesisError::MissingTypeTag),
        },
{
    match &object_schema.schema_type {
        Some(tags) => Ok(
            tags.contains(SchemaType::String) || tags.contains(SchemaType::Integer)
                || tags.contains(SchemaType::Number) || tags.contains(SchemaType::Boolean),
        ),
        None => Err(SynthesisError::MissingTypeTag),
    }
}

/// What the proof keeps account of between two steps: the leaves that have
/// been put into the table, their values, and the work list.
struct Account {
    done: Seq<LeafSlot>,
    values: Seq<PropertyValueModel>,
    work: Seq<Visit>,
}

/// A schema on the work list, with the key under which it stands.
struct Pending<'a> {
    prefix: String,
    node: &'a SchemaNode,
}

/// Whether the work list of the code is the one that the proof speaks of.
spec fn mirrors(stack: Seq<Pending<'_>>, work: Seq<Visit>) -> bool {
    &&& stack.len() == work.len()
    &&& forall|i: int|
        0 <= i < stack.len() ==> (#[trigger] stack[i]).prefix@ == work[i].prefix && *stack[i].node
            == work[i].node
}

/// Synthesizes the value of a leaf and puts it into the table at `key`.
fn emit_leaf(
    table: &mut FlatTable,
    key: String,
    type_set: &TypeSet,
    example: &Option<Json>,
    enum_values: &Vec<String>,
    Ghost(path): Ghost<Seq<Step>>,
) -> (outcome: Result<Ghost<PropertyValueModel>, SynthesisError>)
    ensures
        match outcome {
            Ok(value) => {
                &&& final(table)@ == put_row(old(table)@, key@, value@)
                &&& fills(
                    LeafSlot {
                        key: key@,
                        path,
                        type_set: *type_set,
                        example: example_model(*example),
                        enum_values: enum_texts(enum_values@),
                    },
                    value@,
                )
                &&& leaf_finding(
                    key@,
                    path,
                    *type_set,
                    example_model(*example),
                    enum_texts(enum_values@),
                ) == Finding::Leaf(
                    LeafSlot {
                        key: key@,
                        path,
                        type_set: *type_set,
                        example: example_model(*example),
                        enum_values: enum_texts(enum_values@),
                    },
                )
            },
            Err(e) => {
                &&& final(table)@ == old(table)@
                &&& leaf_finding(
                    key@,
                    path,
                    *type_set,
                    example_model(*example),
                    enum_texts(enum_values@),
                ) == Finding::Fault(e)
            },
        },
{
    let ghost slot = LeafSlot {
        key: key@,
        path,
        type_set: *type_set,
        example: example_model(*example),
        enum_values: enum_texts(enum_values@),
    };
    match get_values_from_property(type_set, example, enum_values) {
        Ok(leaf) => {
            let value = get_property_value_object(&leaf);
            let ghost model = value@;
            assert(can_synthesize(slot.type_set, slot.example, slot.enum_values, leaf@));
            assert(fills(slot, model));
            table.insert(key, value);
            Ok(Ghost(model))
        },
        Err(e) => Err(e),
    }
}

/// Handles a schema without properties: its own leaf, then its items.
fn visit_leaf<'a>(
    table: &mut FlatTable,
    stack: &mut Vec<Pending<'a>>,
    pending: Pending<'a>,
    Ghost(root): Ghost<SchemaNode>,
    Ghost(done): Ghost<Seq<LeafSlot>>,
    Ghost(values): Ghost<Seq<PropertyValueModel>>,
    Ghost(work): Ghost<Seq<Visit>>,
    Ghost(trail): Ghost<Seq<Step>>,
) -> (outcome: Result<Ghost<Account>, SynthesisError>)
    requires
        pending.node.properties@.len() == 0,
        mirrors(old(stack)@, work),
        progress(
            root,
            old(table)@,
            done,
            work,
            Stage::Whole { visit: Visit { prefix: pending.prefix@, trail, node: *pending.node } },
        ),
        ordered(
            root,
            old(table)@,
            done,
            values,
            ahead(
                work,
                Stage::Whole { visit: Visit { prefix: pending.prefix@, trail, node: *pending.node } },
            ),
        ),
    ensures
        match outcome {
            Ok(state) => {
                &&& mirrors(final(stack)@, state@.work)
                &&& progress(root, final(table)@, state@.done, state@.work, Stage::Idle)
                &&& ordered(
                    root,
                    final(table)@,
                    state@.done,
                    state@.values,
                    ahead(state@.work, Stage::Idle),
                )
                &&& total_weight(state@.work) < total_weight(work) + weight(*pending.node)
            },
            Err(e) => has_fault(root, e) && first_fault(root, e),
        },
{
    let node = pending.node;
    let ghost visit = Visit { prefix: pending.prefix@, trail, node: *node };
    let ghost mut done = done;
    let ghost mut values = values;
    let single = match is_single_property(node) {
        Ok(single) => single,
        Err(e) => {
            proof {
                assert(staged(Stage::Whole { visit }, Finding::Fault(e)));
                assert(ahead(work, Stage::Whole { visit }) =~= seq![Finding::Fault(e)] + walk(
                    work + pushed(visit),
                ));
                lemma_ordered_fault(root, table@, done, values, e, walk(work + pushed(visit)));
            }
            return Err(e);
        },
    };
    let tags = match &node.schema_type {
        Some(tags) => tags,
        None => {
            return Err(SynthesisError::MissingTypeTag);
        },
    };
    proof {
        lemma_ahead_alone(work, visit);
    }
    let ghost later = ahead(work, Stage::Items { visit });
    if single {
        let ghost slot = LeafSlot {
            key: pending.prefix@,
            path: trail,
            type_set: *tags,
            example: example_model(node.example),
            enum_values: enum_texts(node.enum_values@),
        };
        let ghost before = table@;
        match emit_leaf(
            table,
            pending.prefix.clone(),
            tags,
            &node.example,
            &node.enum_values,
            Ghost(trail),
        ) {
            Ok(value) => {
                proof {
                    assert forall|f: Finding|
                        (#[trigger] queued(work, f) || staged(Stage::Whole { visit }, f)) <==> (f
                            == Finding::Leaf(slot) || queued(work, f) || staged(
                            Stage::Items { visit },
                            f,
                        )) by {}
                    lemma_emit(
                        root,
                        before,
                        done,
                        work,
                        Stage::Whole { visit },
                        Stage::Items { visit },
                        slot,
                        value@,
                    );
                    assert(own_leaf(visit) == seq![Finding::Leaf(slot)]);
                    lemma_ordered_emit(root, before, done, values, slot, value@, later);
                    done = done.push(slot);
                    values = values.push(value@);
                }
            },
            Err(e) => {
                proof {
                    assert(staged(Stage::Whole { visit }, Finding::Fault(e)));
                    assert(own_leaf(visit) == seq![Finding::Fault(e)]);
                    lemma_ordered_fault(root, table@, done, values, e, later);
                }
                return Err(e);
            },
        }
    } else {
        proof {
            assert forall|f: Finding|
                (queued(work, f) || staged(Stage::Whole { visit }, f)) <==> (#[trigger] queued(
                    work,
                    f,
                ) || staged(Stage::Items { visit }, f)) by {}
            lemma_shift(
                root,
                table@,
                done,
                work,
                Stage::Whole { visit },
                work,
                Stage::Items { visit },
            );
            assert(own_leaf(visit) + later =~= later);
        }
    }
    assert(progress(root, table@, done, work, Stage::Items { visit }));
    assert(ordered(root, table@, done, values, later));
    proof {
        lemma_ahead_items(work, visit);
    }
    if tags.is_array_or_nullable_array() {
        if let Some(items) = &node.items {
            let child = match items.resolve() {
                Ok(child) => child,
                Err(e) => {
                    proof {
                        assert(staged(Stage::Items { visit }, Finding::Fault(e)));
                        assert(items_fault(visit) == seq![Finding::Fault(e)]);
                        lemma_ordered_fault(
                            root,
                            table@,
                            done,
                            values,
                            e,
                            ahead(work, Stage::Idle),
                        );
                    }
                    return Err(e);
                },
            };
            let key = make_items_key(pending.prefix.as_str());
            let ghost next = Visit { prefix: key@, trail: trail.push(Step::Items), node: *child };
            stack.push(Pending { prefix: key, node: child });
            proof {
                assert forall|f: Finding|
                    (queued(work, f) || staged(Stage::Items { visit }, f)) <==> (#[trigger] queued(
                        work.push(next),
                        f,
                    ) || staged(Stage::Idle, f)) by {
                    lemma_queued_push(work, next, f);
                }
                lemma_shift(
                    root,
                    table@,
                    done,
                    work,
                    Stage::Items { visit },
                    work.push(next),
                    Stage::Idle,
                );
                lemma_total_weight_push(work, next);
                assert(pushed_alone(visit) == seq![next]);
            }
            return Ok(Ghost(Account { done, values, work: work.push(next) }));
        }
    }
    proof {
        assert forall|f: Finding|
            (queued(work, f) || staged(Stage::Items { visit }, f)) <==> (#[trigger] queued(work, f)
                || staged(Stage::Idle, f)) by {}
        lemma_shift(root, table@, done, work, Stage::Items { visit }, work, Stage::Idle);
        assert(pushed_alone(visit).len() == 0);
        assert(items_fault(visit) + ahead(work, Stage::Idle) =~= ahead(work, Stage::Idle));
    }
    Ok(Ghost(Account { done, values, work }))
}

/// Handles a schema with properties: a leaf for each required scalar
/// property, and each other required property onto the work list.
fn visit_properties<'a>(
    table: &mut FlatTable,
    stack: &mut Vec<Pending<'a>>,
    pending: Pending<'a>,
    Ghost(root): Ghost<SchemaNode>,
    Ghost(done): Ghost<Seq<LeafSlot>>,
    Ghost(values): Ghost<Seq<PropertyValueModel>>,
    Ghost(work): Ghost<Seq<Visit>>,
    Ghost(trail): Ghost<Seq<Step>>,
) -> (outcome: Result<Ghost<Account>, SynthesisError>)
    requires
        pending.node.properties@.len() > 0,
        mirrors(old(stack)@, work),
        progress(
            root,
            old(table)@,
            done,
            work,
            Stage::Whole { visit: Visit { prefix: pending.prefix@, trail, node: *pending.node } },
        ),
        ordered(
            root,
            old(table)@,
            done,
            values,
            ahead(
                work,
                Stage::Whole { visit: Visit { prefix: pending.prefix@, trail, node: *pending.node } },
            ),
        ),
    ensures
        match outcome {
            Ok(state) => {
                &&& mirrors(final(stack)@, state@.work)
                &&& progress(root, final(table)@, state@.done, state@.work, Stage::Idle)
                &&& ordered(
                    root,
                    final(table)@,
                    state@.done,
                    state@.values,
                    ahead(state@.work, Stage::Idle),
                )
                &&& total_weight(state@.work) < total_weight(work) + weight(*pending.node)
            },
            Err(e) => has_fault(root, e) && first_fault(root, e),
        },
{
    let node = pending.node;
    let ghost visit = Visit { prefix: pending.prefix@, trail, node: *node };
    let ghost base = total_weight(work);
    let ghost mut done = done;
    let ghost mut values = values;
    let ghost mut work = work;
    proof {
        assert forall|f: Finding|
            (queued(work, f) || staged(Stage::Whole { visit }, f)) <==> (#[trigger] queued(work, f)
                || staged(Stage::Properties { visit, from: 0 }, f)) by {
            lemma_whole_is_properties(visit, f);
        }
        lemma_shift(
            root,
            table@,
            done,
            work,
            Stage::Whole { visit },
            work,
            Stage::Properties { visit, from: 0 },
        );
        lemma_ahead_properties(work, visit);
    }
    let mut j: usize = 0;
    while j < node.properties.len()
        invariant
            j <= node.properties.len(),
            visit == (Visit { prefix: pending.prefix@, trail, node: *node }),
            mirrors(stack@, work),
            progress(root, table@, done, work, Stage::Properties { visit, from: j as int }),
            ordered(
                root,
                table@,
                done,
                values,
                ahead(work, Stage::Properties { visit, from: j as int }),
            ),
            total_weight(work) + properties_weight(*node, j as int) <= base + properties_weight(
                *node,
                0,
            ),
        decreases node.properties.len() - j,
    {
        let property = &node.properties[j];
        let ghost here = Stage::Properties { visit, from: j as int };
        let ghost after = Stage::Properties { visit, from: j + 1 };
        proof {
            assert forall|f: Finding|
                staged(here, f) <==> (#[trigger] finds_through(
                    visit.prefix,
                    visit.trail,
                    visit.node,
                    j as int,
                    f,
                ) || staged(after, f)) by {
                lemma_staged_step(visit, j as int, f);
            }
            lemma_ahead_step(work, visit, j as int);
        }
        if node.is_required(&property.name) {
            let child = match property.schema.resolve() {
                Ok(child) => child,
                Err(e) => {
                    proof {
                        assert(finds_through(
                            visit.prefix,
                            visit.trail,
                            visit.node,
                            j as int,
                            Finding::Fault(e),
                        ));
                        assert(staged(here, Finding::Fault(e)));
                        assert(met_at(visit, j as int) == seq![Finding::Fault(e)]);
                        lemma_ordered_fault(root, table@, done, values, e, ahead(work, after));
                    }
                    return Err(e);
                },
            };
            let single = match is_single_property(child) {
                Ok(single) => single,
                Err(e) => {
                    proof {
                        assert(finds_through(
                            visit.prefix,
                            visit.trail,
                            visit.node,
                            j as int,
                            Finding::Fault(e),
                        ));
                        assert(staged(here, Finding::Fault(e)));
                        assert(met_at(visit, j as int) == seq![Finding::Fault(e)]);
                        lemma_ordered_fault(root, table@, done, values, e, ahead(work, after));
                    }
                    return Err(e);
                },
            };
            let tags = match &child.schema_type {
                Some(tags) => tags,
                None => {
                    return Err(SynthesisError::MissingTypeTag);
                },
            };
            let key = make_child_key(pending.prefix.as_str(), property.name.as_str());
            let ghost path = trail.push(Step::Property(j as int));
            if single {
                let ghost slot = LeafSlot {
                    key: key@,
                    path,
                    type_set: *tags,
                    example: example_model(child.example),
                    enum_values: enum_texts(node.enum_values@),
                };
                let ghost before = table@;
                match emit_leaf(table, key, tags, &child.example, &node.enum_values, Ghost(path)) {
                    Ok(value) => {
                        proof {
                            assert forall|f: Finding|
                                (#[trigger] queued(work, f) || staged(here, f)) <==> (f
                                    == Finding::Leaf(slot) || queued(work, f) || staged(
                                    after,
                                    f,
                                )) by {
                                assert(finds_through(
                                    visit.prefix,
                                    visit.trail,
                                    visit.node,
                                    j as int,
                                    f,
                                ) <==> f == Finding::Leaf(slot));
                            }
                            lemma_emit(root, before, done, work, here, after, slot, value@);
                            assert(met_at(visit, j as int) == seq![Finding::Leaf(slot)]);
                            lemma_ordered_emit(
                                root,
                                before,
                                done,
                                values,
                                slot,
                                value@,
                                ahead(work, after),
                            );
                            done = done.push(slot);
                            values = values.push(value@);
                        }
                    },
                    Err(e) => {
                        proof {
                            assert(finds_through(
                                visit.prefix,
                                visit.trail,
                                visit.node,
                                j as int,
                                Finding::Fault(e),
                            ));
                            assert(staged(here, Finding::Fault(e)));
                            assert(met_at(visit, j as int) == seq![Finding::Fault(e)]);
                            lemma_ordered_fault(root, table@, done, values, e, ahead(work, after));
                        }
                        return Err(e);
                    },
                }
            } else {
                let ghost next = Visit { prefix: key@, trail: path, node: *child };
                stack.push(Pending { prefix: key, node: child });
                proof {
                    assert forall|f: Finding|
                        (queued(work, f) || staged(here, f)) <==> (#[trigger] queued(
                            work.push(next),
                            f,
                        ) || staged(after, f)) by {
                        lemma_queued_push(work, next, f);
                        assert(finds_through(visit.prefix, visit.trail, visit.node, j as int, f)
                            <==> finds(next.prefix, next.trail, next.node, f));
                    }
                    lemma_shift(root, table@, done, work, here, work.push(next), after);
                    lemma_total_weight_push(work, next);
                    assert(pushed_at(visit, j as int) == seq![next]);
                    work = work.push(next);
                }
            }
        } else {
            proof {
                assert forall|f: Finding|
                    (queued(work, f) || staged(here, f)) <==> (#[trigger] queued(work, f) || staged(
                        after,
                        f,
                    )) by {
                    assert(!finds_through(visit.prefix, visit.trail, visit.node, j as int, f));
                }
                lemma_shift(root, table@, done, work, here, work, after);
                assert(met_at(visit, j as int) + ahead(work, after) =~= ahead(work, after));
            }
        }
        j += 1;
    }
    proof {
        let last = Stage::Properties { visit, from: j as int };
        assert forall|f: Finding|
            (queued(work, f) || staged(last, f)) <==> (#[trigger] queued(work, f) || staged(
                Stage::Idle,
                f,
            )) by {
            lemma_properties_end(visit, j as int, f);
        }
        lemma_shift(root, table@, done, work, last, work, Stage::Idle);
        lemma_ahead_end(work, visit, j as int);
    }
    Ok(Ghost(Account { done, values, work }))
}

/// Flattens a schema into the table of its leaves.
///
/// The walk starts at the schema, under the empty key, and goes on from the
/// schema that was put on the work list last.  It succeeds exactly where the
/// schema has no fault.  The table then has one row for each key at which a
/// leaf stands, and the row holds a value that the synthesis can give for a
/// leaf at that key; it is the table into which such a value is put for each
/// leaf, in the order in which the leaves are met.  Where the walk fails, the
/// error is the first fault that it meets.
pub fn get_body_by_object_schema(schema: &SchemaNode) -> (table: Result<FlatTable, SynthesisError>)
    ensures
        table is Ok <==> sound(*schema),
        match table {
            Ok(rows) => {
                &&& flat_table_of(*schema, rows@)
                &&& table_in_order(*schema, rows@)
                &&& rows.well_formed()
            },
            Err(e) => has_fault(*schema, e) && first_fault(*schema, e),
        },
{
    let mut table = FlatTable::new();
    let mut stack: Vec<Pending> = Vec::new();
    stack.push(Pending { prefix: String::new(), node: schema });
    let ghost root = *schema;
    let ghost first = Visit { prefix: Seq::empty(), trail: Seq::empty(), node: root };
    let ghost mut work: Seq<Visit> = seq![first];
    let ghost mut done: Seq<LeafSlot> = Seq::empty();
    let ghost mut values: Seq<PropertyValueModel> = Seq::empty();
    proof {
        assert(table@ =~= Seq::empty());
        lemma_first_index(row_keys(table@), Seq::<char>::empty());
        assert forall|f: Finding| #[trigger]
            finds(Seq::empty(), Seq::empty(), root, f) <==> (settled(done, f) || queued(work, f)
                || staged(Stage::Idle, f)) by {
            if finds(Seq::empty(), Seq::empty(), root, f) {
                assert(waiting(work, 0, f));
            }
            if queued(work, f) {
                let i = choose|i: int| waiting(work, i, f);
                assert(i == 0);
            }
        }
        assert forall|key: Seq<char>| #[trigger] has_row(table@, key) <==> key_done(done, key) by {
            lemma_first_index(row_keys(table@), key);
        }
        lemma_ordered_start(root);
        assert(work == start(root));
    }
    while stack.len() > 0
        invariant
            root == *schema,
            mirrors(stack@, work),
            progress(root, table@, done, work, Stage::Idle),
            ordered(root, table@, done, values, ahead(work, Stage::Idle)),
        decreases total_weight(work),
    {
        let ghost visit = work.last();
        let ghost rest = work.drop_last();
        let pending = stack.pop().unwrap();
        proof {
            assert(work =~= rest.push(visit));
            assert forall|f: Finding|
                (queued(work, f) || staged(Stage::Idle, f)) <==> (#[trigger] queued(rest, f)
                    || staged(Stage::Whole { visit }, f)) by {
                lemma_queued_push(rest, visit, f);
            }
            lemma_shift(root, table@, done, work, Stage::Idle, rest, Stage::Whole { visit });
            lemma_total_weight_push(rest, visit);
            lemma_ahead_pop(rest, visit);
            assert(mirrors(stack@, rest));
        }
        let outcome = if pending.node.properties.len() == 0 {
            visit_leaf(
                &mut table,
                &mut stack,
                pending,
                Ghost(root),
                Ghost(done),
                Ghost(values),
                Ghost(rest),
                Ghost(visit.trail),
            )
        } else {
            visit_properties(
                &mut table,
                &mut stack,
                pending,
                Ghost(root),
                Ghost(done),
                Ghost(values),
                Ghost(rest),
                Ghost(visit.trail),
            )
        };
        match outcome {
            Ok(state) => {
                proof {
                    done = state@.done;
                    values = state@.values;
                    work = state@.work;
                }
            },
            Err(e) => {
                return Err(e);
            },
        }
    }
    proof {
        assert(work =~= Seq::<Visit>::empty());
        lemma_ordered_end(root, table@, done, values);
        assert forall|f: Finding|
            finds(Seq::empty(), Seq::empty(), root, f) <==> settled(done, f) by {
            lemma_queued_empty(f);
        }
        assert forall|e: SynthesisError| !has_fault(root, e) by {
            assert(!settled(done, Finding::Fault(e)));
        }
        assert forall|key: Seq<char>| #[trigger] has_row(table@, key) <==> leaf_at(root, key) by {
            if key_done(done, key) {
                let d = choose|d: int| 0 <= d < done.len() && (#[trigger] done[d]).key == key;
                assert(settled(done, Finding::Leaf(done[d])));
                assert(is_leaf(root, done[d]));
            }
            if leaf_at(root, key) {
                let slot = choose|slot: LeafSlot| #[trigger] is_leaf(root, slot) && slot.key == key;
                assert(settled(done, Finding::Leaf(slot)));
            }
        }
        assert forall|r: int| 0 <= r < table@.len() implies row_of_leaf(
            root,
            #[trigger] table@[r],
        ) by {
            let row = table@[r];
            assert(backed(done, row));
            let d = choose|d: int|
                0 <= d < done.len() && (#[trigger] done[d]).key == row.key && fills(
                    done[d],
                    row.value,
                );
            assert(settled(done, Finding::Leaf(done[d])));
            assert(is_leaf(root, done[d]));
        }
    }
    Ok(table)
}

} // verus!
