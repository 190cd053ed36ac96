//! The state of the work list while a schema is flattened, and what holds of
//! it between two steps.

use crate::composite_objects::{
    distinct_rows, has_row, lemma_put_row, put_row, row_keys, row_position, PropertyValueModel,
    Rows, TableEntryModel,
};
use crate::first_index::lemma_first_index;
use crate::flatten_model::{fills, finds, finds_from, finds_through, Finding, LeafSlot, Step};
use crate::path_key::items_key;
use crate::schema::{SchemaNode, SchemaRef, SynthesisError};
use vstd::prelude::*;

verus! {

/// A schema that waits on the work list: the key under which it stands, the
/// steps that led to it, and the schema.
pub struct Visit {
    pub prefix: Seq<char>,
    pub trail: Seq<Step>,
    pub node: SchemaNode,
}

/// How far the schema that was taken from the work list has been handled.
pub enum Stage {
    /// No schema is in hand.
    Idle,
    /// A schema has been taken from the work list; nothing of it has been
    /// handled.
    Whole { visit: Visit },
    /// The properties before place `from` have been handled.
    Properties { visit: Visit, from: int },
    /// A schema without properties whose own leaf has been handled; its items
    /// have not.
    Items { visit: Visit },
}

/// Whether the walk finds `f` from the schema at place `i` of the work list.
pub open spec fn waiting(work: Seq<Visit>, i: int, f: Finding) -> bool {
    0 <= i < work.len() && finds(work[i].prefix, work[i].trail, work[i].node, f)
}

/// Whether the walk finds `f` from a schema on the work list.
pub open spec fn queued(work: Seq<Visit>, f: Finding) -> bool {
    exists|i: int| #[trigger] waiting(work, i, f)
}

/// Whether the walk finds `f` in what is left of the schema in hand.
pub open spec fn staged(stage: Stage, f: Finding) -> bool {
    match stage {
        Stage::Idle => false,
        Stage::Whole { visit } => finds(visit.prefix, visit.trail, visit.node, f),
        Stage::Properties { visit, from } => finds_from(
            visit.prefix,
            visit.trail,
            visit.node,
            from,
            f,
        ),
        Stage::Items { visit } => match visit.node.schema_type {
            None => false,
            Some(tags) => tags.array_like() && match visit.node.items {
                Some(items) => match *items {
                    SchemaRef::Object(child) => finds(
                        items_key(visit.prefix),
                        visit.trail.push(Step::Items),
                        child,
                        f,
                    ),
                    SchemaRef::Unresolved { .. } => f == Finding::Fault(
                        SynthesisError::UnresolvableReference,
                    ),
                },
                None => false,
            },
        },
    }
}

/// Whether `f` is a leaf that has been put into the table.
pub open spec fn settled(done: Seq<LeafSlot>, f: Finding) -> bool {
    match f {
        Finding::Leaf(slot) => exists|d: int| 0 <= d < done.len() && #[trigger] done[d] == slot,
        Finding::Fault(_) => false,
    }
}

/// Whether a leaf that has been put into the table stands at `key`.
pub open spec fn key_done(done: Seq<LeafSlot>, key: Seq<char>) -> bool {
    exists|d: int| 0 <= d < done.len() && (#[trigger] done[d]).key == key
}

/// Whether the row holds a value for a leaf that has been put into the table
/// at the row's key.
pub open spec fn backed(done: Seq<LeafSlot>, row: TableEntryModel) -> bool {
    exists|d: int|
        0 <= d < done.len() && (#[trigger] done[d]).key == row.key && fills(done[d], row.value)
}

/// What holds between two steps: what the walk finds from the root is what
/// has been put into the table, what waits on the work list and what is left
/// of the schema in hand; no fault has been met; and the rows of the table
/// are the leaves met so far.
pub open spec fn progress(
    root: SchemaNode,
    rows: Rows,
    done: Seq<LeafSlot>,
    work: Seq<Visit>,
    stage: Stage,
) -> bool {
    &&& distinct_rows(rows)
    &&& forall|f: Finding| #[trigger]
        finds(Seq::empty(), Seq::empty(), root, f) <==> (settled(done, f) || queued(work, f)
            || staged(stage, f))
    &&& forall|key: Seq<char>| #[trigger] has_row(rows, key) <==> key_done(done, key)
    &&& forall|r: int| 0 <= r < rows.len() ==> backed(done, #[trigger] rows[r])
}

/// The size of a schema: one for itself, and the sizes of the schemas below
/// its properties and its items.
pub open spec fn weight(node: SchemaNode) -> nat
    decreases node, node.properties@.len() + 1,
{
    1 + properties_weight(node, 0) + match node.items {
        Some(items) => match *items {
            SchemaRef::Object(child) => weight(child),
            SchemaRef::Unresolved { .. } => 0,
        },
        None => 0,
    }
}

/// The sizes of the schemas below the properties from place `from` on.
pub open spec fn properties_weight(node: SchemaNode, from: int) -> nat
    decreases node, node.properties@.len() - from,
{
    if 0 <= from < node.properties@.len() {
        (match node.properties@[from].schema {
            SchemaRef::Object(child) => weight(child),
            SchemaRef::Unresolved { .. } => 0,
        }) + properties_weight(node, from + 1)
    } else {
        0
    }
}

/// The sizes of the schemas on the work list.
pub open spec fn total_weight(work: Seq<Visit>) -> nat
    decreases work.len(),
{
    if work.len() == 0 {
        0
    } else {
        total_weight(work.drop_last()) + weight(work.last().node)
    }
}

/// A schema put on the work list adds its size.
pub proof fn lemma_total_weight_push(work: Seq<Visit>, visit: Visit)
    ensures
        total_weight(work.push(visit)) == total_weight(work) + weight(visit.node),
{
    assert(work.push(visit).drop_last() =~= work);
}

/// What waits on the work list after a schema is put on it.
pub proof fn lemma_queued_push(work: Seq<Visit>, visit: Visit, f: Finding)
    ensures
        queued(work.push(visit), f) <==> (queued(work, f) || finds(
            visit.prefix,
            visit.trail,
            visit.node,
            f,
        )),
{
    let longer = work.push(visit);
    if queued(longer, f) {
        let i = choose|i: int| waiting(longer, i, f);
        if i < work.len() {
            assert(waiting(work, i, f));
        }
    }
    if queued(work, f) {
        let i = choose|i: int| waiting(work, i, f);
        assert(waiting(longer, i, f));
    }
    if finds(visit.prefix, visit.trail, visit.node, f) {
        assert(waiting(longer, work.len() as int, f));
    }
}

/// Nothing waits on an empty work list.
pub proof fn lemma_queued_empty(f: Finding)
    ensures
        !queued(Seq::<Visit>::empty(), f),
{
    if queued(Seq::<Visit>::empty(), f) {
        let i = choose|i: int| waiting(Seq::<Visit>::empty(), i, f);
        assert(false);
    }
}

/// The properties from place `from` on are the property at `from` and those
/// after it.
pub proof fn lemma_staged_step(visit: Visit, from: int, f: Finding)
    requires
        0 <= from < visit.node.properties@.len(),
    ensures
        staged(Stage::Properties { visit, from }, f) <==> (finds_through(
            visit.prefix,
            visit.trail,
            visit.node,
            from,
            f,
        ) || staged(Stage::Properties { visit, from: from + 1 }, f)),
{
}

/// A schema with properties is walked from its first property on.
pub proof fn lemma_whole_is_properties(visit: Visit, f: Finding)
    requires
        visit.node.properties@.len() > 0,
    ensures
        staged(Stage::Whole { visit }, f) <==> staged(Stage::Properties { visit, from: 0 }, f),
{
}

/// After the last property nothing is left of a schema with properties.
pub proof fn lemma_properties_end(visit: Visit, from: int, f: Finding)
    requires
        from >= visit.node.properties@.len(),
    ensures
        !staged(Stage::Properties { visit, from }, f),
{
}

/// A step that puts no leaf into the table keeps `progress`, where what is
/// open after it is what was open before it.
pub proof fn lemma_shift(
    root: SchemaNode,
    rows: Rows,
    done: Seq<LeafSlot>,
    work: Seq<Visit>,
    stage: Stage,
    work_after: Seq<Visit>,
    stage_after: Stage,
)
    requires
        progress(root, rows, done, work, stage),
        forall|f: Finding|
            (queued(work, f) || staged(stage, f)) <==> (#[trigger] queued(work_after, f) || staged(
                stage_after,
                f,
            )),
    ensures
        progress(root, rows, done, work_after, stage_after),
{
    assert forall|f: Finding| #[trigger]
        finds(Seq::empty(), Seq::empty(), root, f) <==> (settled(done, f) || queued(work_after, f)
            || staged(stage_after, f)) by {}
}

/// A step that puts the leaf `slot` into the table keeps `progress`, where
/// what was open before it is the leaf and what is open after it.
pub proof fn lemma_emit(
    root: SchemaNode,
    rows: Rows,
    done: Seq<LeafSlot>,
    work: Seq<Visit>,
    stage: Stage,
    stage_after: Stage,
    slot: LeafSlot,
    value: PropertyValueModel,
)
    requires
        progress(root, rows, done, work, stage),
        fills(slot, value),
        forall|f: Finding|
            (#[trigger] queued(work, f) || staged(stage, f)) <==> (f == Finding::Leaf(slot)
                || queued(work, f) || staged(stage_after, f)),
    ensures
        progress(root, put_row(rows, slot.key, value), done.push(slot), work, stage_after),
{
    let rows_after = put_row(rows, slot.key, value);
    let done_after = done.push(slot);
    lemma_put_row(rows, slot.key, value);
    assert(done_after[done.len() as int] == slot);
    assert forall|f: Finding| #[trigger]
        finds(Seq::empty(), Seq::empty(), root, f) <==> (settled(done_after, f) || queued(work, f)
            || staged(stage_after, f)) by {
        if settled(done, f) {
            let d = choose|d: int| 0 <= d < done.len() && #[trigger] done[d] == f->Leaf_0;
            assert(done_after[d] == f->Leaf_0);
        }
        if settled(done_after, f) {
            let d = choose|d: int|
                0 <= d < done_after.len() && #[trigger] done_after[d] == f->Leaf_0;
            if d < done.len() {
                assert(done[d] == f->Leaf_0);
            }
        }
    }
    assert forall|key: Seq<char>| #[trigger]
        has_row(rows_after, key) <==> key_done(done_after, key) by {
        assert(has_row(rows, key) <==> key_done(done, key));
        if key_done(done, key) {
            let d = choose|d: int| 0 <= d < done.len() && (#[trigger] done[d]).key == key;
            assert(done_after[d].key == key);
        }
        if key_done(done_after, key) {
            let d = choose|d: int|
                0 <= d < done_after.len() && (#[trigger] done_after[d]).key == key;
            if d < done.len() {
                assert(done[d].key == key);
            }
        }
    }
    let at = row_position(rows, slot.key);
    lemma_first_index(row_keys(rows), slot.key);
    assert forall|r: int| 0 <= r < rows_after.len() implies backed(
        done_after,
        #[trigger] rows_after[r],
    ) by {
        if r == at {
            assert(done_after[done.len() as int].key == rows_after[r].key);
        } else {
            assert(rows_after[r] == rows[r]);
            assert(backed(done, rows[r]));
            let d = choose|d: int|
                0 <= d < done.len() && (#[trigger] done[d]).key == rows[r].key && fills(
                    done[d],
                    rows[r].value,
                );
            assert(done_after[d] == done[d]);
        }
    }
}

} // verus!
