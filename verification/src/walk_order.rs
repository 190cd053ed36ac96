//! The order in which the work list meets the leaves and faults of a schema.
//!
//! The schema that was put on the work list last is handled first.  Handling
//! a schema meets what stands directly in it, in the order of its properties,
//! and puts the schemas below it on the work list, to be handled after it.

use crate::composite_objects::{put_row, PropertyValueModel, Rows};
use crate::flatten_model::{fills, leaf_finding, Finding, LeafSlot, Step};
use crate::object_reference_handler::{enum_texts, example_model};
use crate::path_key::{child_key, items_key};
use crate::schema::{SchemaNode, SchemaRef, SynthesisError};
use crate::work_list::{properties_weight, total_weight, weight, Stage, Visit};
use vstd::prelude::*;

verus! {

/// What handling a schema without properties meets: its missing type tags;
/// or its own leaf, where it is scalar, and then the missing schema of its
/// items, where it is an array.
pub open spec fn met_alone(visit: Visit) -> Seq<Finding> {
    match visit.node.schema_type {
        None => seq![Finding::Fault(SynthesisError::MissingTypeTag)],
        Some(tags) => own_leaf(visit) + items_fault(visit),
    }
}

/// The leaf of a scalar schema without properties, or the fault of its
/// synthesis.
pub open spec fn own_leaf(visit: Visit) -> Seq<Finding> {
    match visit.node.schema_type {
        Some(tags) => if tags.scalar() {
            seq![
                leaf_finding(
                    visit.prefix,
                    visit.trail,
                    tags,
                    example_model(visit.node.example),
                    enum_texts(visit.node.enum_values@),
                ),
            ]
        } else {
            Seq::empty()
        },
        None => Seq::empty(),
    }
}

/// The fault of an array whose items have no schema.
pub open spec fn items_fault(visit: Visit) -> Seq<Finding> {
    match visit.node.schema_type {
        Some(tags) => if tags.array_like() {
            match visit.node.items {
                Some(items) => match *items {
                    SchemaRef::Unresolved { .. } => seq![
                        Finding::Fault(SynthesisError::UnresolvableReference),
                    ],
                    SchemaRef::Object(_) => Seq::empty(),
                },
                None => Seq::empty(),
            }
        } else {
            Seq::empty()
        },
        None => Seq::empty(),
    }
}

/// What handling a schema without properties puts on the work list: the
/// schema of its items, where it is an array and has one.
pub open spec fn pushed_alone(visit: Visit) -> Seq<Visit> {
    match visit.node.schema_type {
        Some(tags) => if tags.array_like() {
            match visit.node.items {
                Some(items) => match *items {
                    SchemaRef::Object(child) => seq![
                        Visit {
                            prefix: items_key(visit.prefix),
                            trail: visit.trail.push(Step::Items),
                            node: child,
                        },
                    ],
                    SchemaRef::Unresolved { .. } => Seq::empty(),
                },
                None => Seq::empty(),
            }
        } else {
            Seq::empty()
        },
        None => Seq::empty(),
    }
}

/// What handling the property at place `i` meets: nothing where it is not
/// required or is put on the work list; else the fault of its missing schema
/// or type tags, or its leaf.
pub open spec fn met_at(visit: Visit, i: int) -> Seq<Finding> {
    let node = visit.node;
    if 0 <= i < node.properties@.len() && node.requires_name(node.properties@[i].name@) {
        match node.properties@[i].schema {
            SchemaRef::Unresolved { .. } => seq![
                Finding::Fault(SynthesisError::UnresolvableReference),
            ],
            SchemaRef::Object(child) => match child.schema_type {
                None => seq![Finding::Fault(SynthesisError::MissingTypeTag)],
                Some(tags) => if tags.scalar() {
                    seq![
                        leaf_finding(
                            child_key(visit.prefix, node.properties@[i].name@),
                            visit.trail.push(Step::Property(i)),
                            tags,
                            example_model(child.example),
                            enum_texts(node.enum_values@),
                        ),
                    ]
                } else {
                    Seq::empty()
                },
            },
        }
    } else {
        Seq::empty()
    }
}

/// What handling the property at place `i` puts on the work list: its
/// schema, where it is required and not scalar.
pub open spec fn pushed_at(visit: Visit, i: int) -> Seq<Visit> {
    let node = visit.node;
    if 0 <= i < node.properties@.len() && node.requires_name(node.properties@[i].name@) {
        match node.properties@[i].schema {
            SchemaRef::Unresolved { .. } => Seq::empty(),
            SchemaRef::Object(child) => match child.schema_type {
                None => Seq::empty(),
                Some(tags) => if tags.scalar() {
                    Seq::empty()
                } else {
                    seq![
                        Visit {
                            prefix: child_key(visit.prefix, node.properties@[i].name@),
                            trail: visit.trail.push(Step::Property(i)),
                            node: child,
                        },
                    ]
                },
            },
        }
    } else {
        Seq::empty()
    }
}

/// What handling the properties from place `from` on meets.
pub open spec fn met_from(visit: Visit, from: int) -> Seq<Finding>
    decreases visit.node.properties@.len() - from,
{
    if 0 <= from < visit.node.properties@.len() {
        met_at(visit, from) + met_from(visit, from + 1)
    } else {
        Seq::empty()
    }
}

/// What handling the properties from place `from` on puts on the work list.
pub open spec fn pushed_from(visit: Visit, from: int) -> Seq<Visit>
    decreases visit.node.properties@.len() - from,
{
    if 0 <= from < visit.node.properties@.len() {
        pushed_at(visit, from) + pushed_from(visit, from + 1)
    } else {
        Seq::empty()
    }
}

/// What handling a schema meets.
pub open spec fn met(visit: Visit) -> Seq<Finding> {
    if visit.node.properties@.len() == 0 {
        met_alone(visit)
    } else {
        met_from(visit, 0)
    }
}

/// What handling a schema puts on the work list.
pub open spec fn pushed(visit: Visit) -> Seq<Visit> {
    if visit.node.properties@.len() == 0 {
        pushed_alone(visit)
    } else {
        pushed_from(visit, 0)
    }
}

/// The sizes of two work lists add up.
pub proof fn lemma_total_weight_add(first: Seq<Visit>, second: Seq<Visit>)
    ensures
        total_weight(first + second) == total_weight(first) + total_weight(second),
    decreases second.len(),
{
    if second.len() == 0 {
        assert(first + second =~= first);
    } else {
        lemma_total_weight_add(first, second.drop_last());
        assert((first + second).drop_last() =~= first + second.drop_last());
        assert((first + second).last() == second.last());
    }
}

/// The schemas that the properties put on the work list are no larger than
/// the schemas below the properties.
pub proof fn lemma_pushed_from_weight(visit: Visit, from: int)
    requires
        0 <= from,
    ensures
        total_weight(pushed_from(visit, from)) <= properties_weight(visit.node, from),
    decreases visit.node.properties@.len() - from,
{
    if from < visit.node.properties@.len() {
        lemma_pushed_from_weight(visit, from + 1);
        lemma_total_weight_add(pushed_at(visit, from), pushed_from(visit, from + 1));
        lemma_one_weight(pushed_at(visit, from));
    }
}

/// The size of a work list of at most one schema.
pub proof fn lemma_one_weight(work: Seq<Visit>)
    requires
        work.len() <= 1,
    ensures
        total_weight(work) == if work.len() == 1 {
            weight(work[0].node)
        } else {
            0
        },
{
    if work.len() == 1 {
        assert(work.drop_last() =~= Seq::<Visit>::empty());
        assert(total_weight(work.drop_last()) == 0);
    }
}

/// What handling a schema puts on the work list is smaller than the schema.
pub proof fn lemma_pushed_weight(visit: Visit)
    ensures
        total_weight(pushed(visit)) < weight(visit.node),
{
    if visit.node.properties@.len() == 0 {
        lemma_one_weight(pushed_alone(visit));
    } else {
        lemma_pushed_from_weight(visit, 0);
    }
}

/// What the work list meets, in order: what handling its last schema meets,
/// and then what the work list meets that is left after it, with the
/// schemas that the handling put on it.
pub open spec fn walk(work: Seq<Visit>) -> Seq<Finding>
    decreases total_weight(work),
    via walk_decreases
{
    if work.len() == 0 {
        Seq::empty()
    } else {
        met(work.last()) + walk(work.drop_last() + pushed(work.last()))
    }
}

#[via_fn]
proof fn walk_decreases(work: Seq<Visit>) {
    if work.len() != 0 {
        lemma_pushed_weight(work.last());
        lemma_total_weight_add(work.drop_last(), pushed(work.last()));
    }
}

/// The work list at the start: the schema alone, under the empty key.
pub open spec fn start(root: SchemaNode) -> Seq<Visit> {
    seq![Visit { prefix: Seq::empty(), trail: Seq::empty(), node: root }]
}

/// What flattening the schema meets, in order.
pub open spec fn met_in_order(root: SchemaNode) -> Seq<Finding> {
    walk(start(root))
}

/// The leaves as findings.
pub open spec fn as_findings(leaves: Seq<LeafSlot>) -> Seq<Finding> {
    Seq::new(leaves.len(), |i: int| Finding::Leaf(leaves[i]))
}

/// The rows of the table into which the values of the leaves are put, leaf
/// after leaf, each at the key of its leaf.
pub open spec fn rows_after(leaves: Seq<LeafSlot>, values: Seq<PropertyValueModel>) -> Rows
    decreases leaves.len(),
{
    if leaves.len() == 0 {
        Seq::empty()
    } else {
        put_row(
            rows_after(leaves.drop_last(), values.drop_last()),
            leaves.last().key,
            values.last(),
        )
    }
}

/// Whether each value is one that the synthesis can give for its leaf.
pub open spec fn values_fill(leaves: Seq<LeafSlot>, values: Seq<PropertyValueModel>) -> bool {
    &&& values.len() == leaves.len()
    &&& forall|i: int| 0 <= i < leaves.len() ==> fills(#[trigger] leaves[i], values[i])
}

/// Whether the rows are the table of the schema in the order of the work
/// list: flattening meets leaves only, and the rows are what putting a value
/// for each leaf into the table gives, in the order in which the leaves are
/// met.  Of two leaves at one key the later gives the value and the earlier
/// the place of the row.
pub open spec fn table_in_order(root: SchemaNode, rows: Rows) -> bool {
    exists|leaves: Seq<LeafSlot>, values: Seq<PropertyValueModel>|
        #![trigger rows_after(leaves, values)]
        {
            &&& met_in_order(root) == as_findings(leaves)
            &&& values_fill(leaves, values)
            &&& rows == rows_after(leaves, values)
        }
}

/// Whether `e` is the first fault that flattening meets: before it only
/// leaves are met.
pub open spec fn first_fault(root: SchemaNode, e: SynthesisError) -> bool {
    exists|i: int|
        0 <= i < met_in_order(root).len() && #[trigger] met_in_order(root)[i] == Finding::Fault(e)
            && forall|k: int| 0 <= k < i ==> (#[trigger] met_in_order(root)[k]) is Leaf
}

/// What is yet to be met: by what is left of the schema in hand, and then
/// by the work list with the schemas that the schema in hand will put on it.
pub open spec fn ahead(work: Seq<Visit>, stage: Stage) -> Seq<Finding> {
    match stage {
        Stage::Idle => walk(work),
        Stage::Whole { visit } => met(visit) + walk(work + pushed(visit)),
        Stage::Items { visit } => items_fault(visit) + walk(work + pushed_alone(visit)),
        Stage::Properties { visit, from } => met_from(visit, from) + walk(
            work + pushed_from(visit, from),
        ),
    }
}

/// What holds of the order between two steps: what has been met are the
/// leaves that have been put into the table, and `rest` is yet to be met; the
/// table holds the values of those leaves, put into it in their order.
pub open spec fn ordered(
    root: SchemaNode,
    rows: Rows,
    done: Seq<LeafSlot>,
    values: Seq<PropertyValueModel>,
    rest: Seq<Finding>,
) -> bool {
    &&& met_in_order(root) == as_findings(done) + rest
    &&& values_fill(done, values)
    &&& rows == rows_after(done, values)
}

/// At the start nothing has been met.
pub proof fn lemma_ordered_start(root: SchemaNode)
    ensures
        ordered(
            root,
            Seq::empty(),
            Seq::empty(),
            Seq::empty(),
            ahead(start(root), Stage::Idle),
        ),
{
    assert(as_findings(Seq::empty()) + walk(start(root)) =~= walk(start(root)));
}

/// A schema that is taken from the work list is handled next.
pub proof fn lemma_ahead_pop(work: Seq<Visit>, visit: Visit)
    ensures
        ahead(work.push(visit), Stage::Idle) == ahead(work, Stage::Whole { visit }),
{
    assert(work.push(visit).drop_last() =~= work);
}

/// A schema without properties and with type tags: its own leaf is met
/// first.
pub proof fn lemma_ahead_alone(work: Seq<Visit>, visit: Visit)
    requires
        visit.node.properties@.len() == 0,
        visit.node.schema_type is Some,
    ensures
        ahead(work, Stage::Whole { visit }) == own_leaf(visit) + ahead(
            work,
            Stage::Items { visit },
        ),
{
    assert((own_leaf(visit) + items_fault(visit)) + walk(work + pushed_alone(visit)) =~= own_leaf(
        visit,
    ) + (items_fault(visit) + walk(work + pushed_alone(visit))));
}

/// The items of a schema without properties: where nothing is put on the
/// work list, the work list goes on as it is; else with the schema of the
/// items on it.
pub proof fn lemma_ahead_items(work: Seq<Visit>, visit: Visit)
    ensures
        pushed_alone(visit).len() == 0 ==> ahead(work, Stage::Items { visit }) == items_fault(
            visit,
        ) + ahead(work, Stage::Idle),
        pushed_alone(visit).len() == 1 ==> ahead(work, Stage::Items { visit }) == ahead(
            work.push(pushed_alone(visit)[0]),
            Stage::Idle,
        ),
{
    if pushed_alone(visit).len() == 0 {
        assert(work + pushed_alone(visit) =~= work);
    } else {
        assert(work + pushed_alone(visit) =~= work.push(pushed_alone(visit)[0]));
        assert(items_fault(visit) + walk(work + pushed_alone(visit)) =~= walk(
            work + pushed_alone(visit),
        ));
    }
}

/// A schema with properties is handled from its first property on.
pub proof fn lemma_ahead_properties(work: Seq<Visit>, visit: Visit)
    requires
        visit.node.properties@.len() > 0,
    ensures
        ahead(work, Stage::Whole { visit }) == ahead(
            work,
            Stage::Properties { visit, from: 0 },
        ),
{
}

/// The property at place `from` is handled before those after it: what it
/// meets comes first, and what it puts on the work list is there for the
/// rest.
pub proof fn lemma_ahead_step(work: Seq<Visit>, visit: Visit, from: int)
    requires
        0 <= from < visit.node.properties@.len(),
    ensures
        pushed_at(visit, from).len() == 0 ==> ahead(work, Stage::Properties { visit, from })
            == met_at(visit, from) + ahead(work, Stage::Properties { visit, from: from + 1 }),
        pushed_at(visit, from).len() == 1 ==> ahead(work, Stage::Properties { visit, from })
            == ahead(
            work.push(pushed_at(visit, from)[0]),
            Stage::Properties { visit, from: from + 1 },
        ),
{
    let after = pushed_from(visit, from + 1);
    if pushed_at(visit, from).len() == 0 {
        assert(pushed_at(visit, from) + after =~= after);
        assert((met_at(visit, from) + met_from(visit, from + 1)) + walk(work + after) =~= met_at(
            visit,
            from,
        ) + (met_from(visit, from + 1) + walk(work + after)));
    } else {
        let child = pushed_at(visit, from)[0];
        assert(work + (pushed_at(visit, from) + after) =~= work.push(child) + after);
        assert(met_at(visit, from) + met_from(visit, from + 1) =~= met_from(visit, from + 1));
    }
}

/// After the last property the work list goes on.
pub proof fn lemma_ahead_end(work: Seq<Visit>, visit: Visit, from: int)
    requires
        from >= visit.node.properties@.len(),
    ensures
        ahead(work, Stage::Properties { visit, from }) == ahead(work, Stage::Idle),
{
    assert(work + pushed_from(visit, from) =~= work);
    assert(met_from(visit, from) + walk(work) =~= walk(work));
}

/// A leaf that is met next and put into the table has been met.
pub proof fn lemma_ordered_emit(
    root: SchemaNode,
    rows: Rows,
    done: Seq<LeafSlot>,
    values: Seq<PropertyValueModel>,
    slot: LeafSlot,
    value: PropertyValueModel,
    rest: Seq<Finding>,
)
    requires
        ordered(root, rows, done, values, seq![Finding::Leaf(slot)] + rest),
        fills(slot, value),
    ensures
        ordered(root, put_row(rows, slot.key, value), done.push(slot), values.push(value), rest),
{
    assert(as_findings(done.push(slot)) + rest =~= as_findings(done) + (seq![Finding::Leaf(slot)]
        + rest));
    assert(done.push(slot).drop_last() =~= done);
    assert(values.push(value).drop_last() =~= values);
}

/// A fault that is met next is the first fault.
pub proof fn lemma_ordered_fault(
    root: SchemaNode,
    rows: Rows,
    done: Seq<LeafSlot>,
    values: Seq<PropertyValueModel>,
    e: SynthesisError,
    rest: Seq<Finding>,
)
    requires
        ordered(root, rows, done, values, seq![Finding::Fault(e)] + rest),
    ensures
        first_fault(root, e),
{
    let found = met_in_order(root);
    let at = done.len() as int;
    assert(found[at] == Finding::Fault(e));
    assert forall|k: int| 0 <= k < at implies (#[trigger] found[k]) is Leaf by {
        assert(found[k] == as_findings(done)[k]);
    }
}

/// When nothing is left to be met, the table is the table of the schema in
/// the order of the work list.
pub proof fn lemma_ordered_end(
    root: SchemaNode,
    rows: Rows,
    done: Seq<LeafSlot>,
    values: Seq<PropertyValueModel>,
)
    requires
        ordered(root, rows, done, values, ahead(Seq::empty(), Stage::Idle)),
    ensures
        table_in_order(root, rows),
{
    assert(as_findings(done) + walk(Seq::empty()) =~= as_findings(done));
    assert(rows == rows_after(done, values));
}

} // verus!
