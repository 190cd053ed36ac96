//! How many rows the table of an object of plain properties has: as many as
//! the schema has leaves.

use crate::composite_objects::{distinct_rows, has_row, row_keys, row_position, Rows};
use crate::first_index::lemma_first_index;
use crate::flatten_model::{
    finds, finds_from, finds_through, flat_table_of, is_leaf, leaf_at, Finding, LeafSlot, Step,
};
use crate::object_reference_handler::{enum_texts, example_model, leaf_fault};
use crate::path_key::{child_key, split_segments};
use crate::round_trip::{
    dotted, extend, lemma_split_names, plain, plain_from, plain_name, plain_names, plain_property,
};
use crate::schema::{distinct_names, lemma_well_formed_below, well_formed, SchemaNode, SchemaRef};
use vstd::prelude::*;
use vstd::seq_lib::lemma_no_dup_in_concat;

verus! {

/// The keys of the leaves of an object of properties, property by property,
/// each leaf counted once.
pub open spec fn leaf_keys(prefix: Seq<char>, node: SchemaNode) -> Seq<Seq<char>>
    decreases node, node.properties@.len() + 2,
{
    leaf_keys_from(prefix, node, 0)
}

/// The keys of the leaves at and below the properties from place `from` on.
pub open spec fn leaf_keys_from(prefix: Seq<char>, node: SchemaNode, from: int) -> Seq<Seq<char>>
    decreases node, node.properties@.len() - from + 1,
{
    if 0 <= from < node.properties@.len() {
        leaf_keys_at(prefix, node, from) + leaf_keys_from(prefix, node, from + 1)
    } else {
        Seq::empty()
    }
}

/// The keys of the leaves at and below the property at place `i`: of a
/// required property that is scalar and can be synthesized its own key, of
/// one that is not scalar the keys of the leaves below it.
pub open spec fn leaf_keys_at(prefix: Seq<char>, node: SchemaNode, i: int) -> Seq<Seq<char>>
    decreases node, 0int,
{
    if 0 <= i < node.properties@.len() && node.requires_name(node.properties@[i].name@) {
        match node.properties@[i].schema {
            SchemaRef::Unresolved { .. } => Seq::empty(),
            SchemaRef::Object(child) => match child.schema_type {
                None => Seq::empty(),
                Some(tags) => if tags.scalar() {
                    if leaf_fault(
                        tags,
                        example_model(child.example),
                        enum_texts(node.enum_values@),
                    ) is None {
                        seq![child_key(prefix, node.properties@[i].name@)]
                    } else {
                        Seq::empty()
                    }
                } else if child.properties@.len() > 0 {
                    leaf_keys(child_key(prefix, node.properties@[i].name@), child)
                } else {
                    Seq::empty()
                },
            },
        }
    } else {
        Seq::empty()
    }
}

/// The number of leaves of an object of properties.
pub open spec fn leaf_count(root: SchemaNode) -> nat {
    leaf_keys(Seq::empty(), root).len()
}

/// What is found at or below a property is found from any place before it
/// on.
pub proof fn lemma_found_from_index(
    prefix: Seq<char>,
    trail: Seq<Step>,
    node: SchemaNode,
    from: int,
    i: int,
    f: Finding,
)
    requires
        0 <= from <= i,
        finds_through(prefix, trail, node, i, f),
    ensures
        finds_from(prefix, trail, node, from, f),
    decreases i - from,
{
    if from < i {
        lemma_found_from_index(prefix, trail, node, from + 1, i, f);
    }
}

/// A key among the keys of the leaves is the key of a leaf that the walk
/// finds.
pub proof fn lemma_key_has_leaf(
    prefix: Seq<char>,
    trail: Seq<Step>,
    node: SchemaNode,
    from: int,
    key: Seq<char>,
) -> (slot: LeafSlot)
    requires
        0 <= from,
        plain_from(node, from),
        leaf_keys_from(prefix, node, from).contains(key),
    ensures
        finds_from(prefix, trail, node, from, Finding::Leaf(slot)),
        slot.key == key,
    decreases node, node.properties@.len() - from,
{
    let here = leaf_keys_at(prefix, node, from);
    let later = leaf_keys_from(prefix, node, from + 1);
    let at = choose|at: int| 0 <= at < (here + later).len() && (here + later)[at] == key;
    if at < here.len() {
        assert(here[at] == key);
        let child = node.properties@[from].schema->Object_0;
        let tags = child.schema_type->0;
        let below = child_key(prefix, node.properties@[from].name@);
        let longer = trail.push(Step::Property(from));
        if tags.scalar() {
            let slot = LeafSlot {
                key: below,
                path: longer,
                type_set: tags,
                example: example_model(child.example),
                enum_values: enum_texts(node.enum_values@),
            };
            assert(finds_through(prefix, trail, node, from, Finding::Leaf(slot)));
            slot
        } else {
            assert(plain_property(node, from));
            let slot = lemma_key_has_leaf(below, longer, child, 0, key);
            assert(finds(below, longer, child, Finding::Leaf(slot)));
            assert(finds_through(prefix, trail, node, from, Finding::Leaf(slot)));
            slot
        }
    } else {
        assert(later[at - here.len()] == key);
        lemma_key_has_leaf(prefix, trail, node, from + 1, key)
    }
}

/// The key of a leaf that the walk finds is among the keys of the leaves.
pub proof fn lemma_leaf_has_key(
    prefix: Seq<char>,
    trail: Seq<Step>,
    node: SchemaNode,
    from: int,
    slot: LeafSlot,
)
    requires
        0 <= from,
        plain_from(node, from),
        finds_from(prefix, trail, node, from, Finding::Leaf(slot)),
    ensures
        leaf_keys_from(prefix, node, from).contains(slot.key),
    decreases node, node.properties@.len() - from,
{
    let here = leaf_keys_at(prefix, node, from);
    let later = leaf_keys_from(prefix, node, from + 1);
    if finds_through(prefix, trail, node, from, Finding::Leaf(slot)) {
        let child = node.properties@[from].schema->Object_0;
        let tags = child.schema_type->0;
        let below = child_key(prefix, node.properties@[from].name@);
        let longer = trail.push(Step::Property(from));
        if tags.scalar() {
            assert(here[0] == slot.key);
        } else {
            assert(plain_property(node, from));
            lemma_leaf_has_key(below, longer, child, 0, slot);
        }
        let at = choose|at: int| 0 <= at < here.len() && here[at] == slot.key;
        assert((here + later)[at] == slot.key);
    } else {
        lemma_leaf_has_key(prefix, trail, node, from + 1, slot);
        let at = choose|at: int| 0 <= at < later.len() && later[at] == slot.key;
        assert((here + later)[here.len() + at] == slot.key);
    }
}

/// Joining one more name to the key that names give is the key that the
/// names and the name give.
pub proof fn lemma_extend_push(prefix: Seq<char>, names: Seq<Seq<char>>, name: Seq<char>)
    ensures
        extend(prefix, names.push(name)) == child_key(extend(prefix, names), name),
    decreases names.len(),
{
    if names.len() == 0 {
        assert(names.push(name).skip(1) =~= Seq::<Seq<char>>::empty());
        assert(extend(child_key(prefix, name), Seq::empty()) == child_key(prefix, name));
    } else {
        lemma_extend_push(child_key(prefix, names[0]), names.skip(1), name);
        assert(names.push(name).skip(1) =~= names.skip(1).push(name));
    }
}

/// Whether the segments of the key begin with the names `base` and go on
/// with the name of the property at place `i`.
pub open spec fn below_property(key: Seq<char>, base: Seq<Seq<char>>, node: SchemaNode, i: int) -> bool {
    &&& 0 <= i < node.properties@.len()
    &&& split_segments(key).len() > base.len()
    &&& split_segments(key).take(base.len() as int) == base
    &&& split_segments(key)[base.len() as int] == node.properties@[i].name@
}

/// Whether the segments of the key begin with the names `base` and go on
/// with the name of a property at place `from` or after it.
pub open spec fn below_some(key: Seq<char>, base: Seq<Seq<char>>, node: SchemaNode, from: int) -> bool {
    exists|j: int| from <= j && #[trigger] below_property(key, base, node, j)
}

/// The keys of the leaves at and below a plain property are all different,
/// and their segments begin with the names above and the name of the
/// property.
pub proof fn lemma_keys_at(base: Seq<Seq<char>>, node: SchemaNode, i: int)
    requires
        plain_names(base),
        well_formed(node),
        plain_property(node, i),
    ensures
        leaf_keys_at(dotted(base), node, i).no_duplicates(),
        forall|k: int|
            0 <= k < leaf_keys_at(dotted(base), node, i).len() ==> below_property(
                #[trigger] leaf_keys_at(dotted(base), node, i)[k],
                base,
                node,
                i,
            ),
    decreases node, 0int,
{
    let name = node.properties@[i].name@;
    let child = node.properties@[i].schema->Object_0;
    let tags = child.schema_type->0;
    let longer = base.push(name);
    let keys = leaf_keys_at(dotted(base), node, i);
    lemma_extend_push(Seq::empty(), base, name);
    assert(plain_names(longer)) by {
        assert forall|k: int| 0 <= k < longer.len() implies plain_name(#[trigger] longer[k]) by {
            if k < base.len() {
                assert(longer[k] == base[k]);
            }
        }
    }
    if tags.scalar() {
        if keys.len() > 0 {
            lemma_split_names(longer);
            assert(longer.take(base.len() as int) =~= base);
        }
    } else {
        lemma_well_formed_below(node, 0, i);
        lemma_keys(longer, child);
        assert forall|k: int| 0 <= k < keys.len() implies below_property(
            #[trigger] keys[k],
            base,
            node,
            i,
        ) by {
            assert(below_some(keys[k], longer, child, 0));
            let j = choose|j: int| 0 <= j && #[trigger] below_property(keys[k], longer, child, j);
            let segments = split_segments(keys[k]);
            assert(segments.take(longer.len() as int)[base.len() as int] == longer[base.len() as int]);
            assert(segments.take(base.len() as int) =~= segments.take(longer.len() as int).take(
                base.len() as int,
            ));
            assert(longer.take(base.len() as int) =~= base);
        }
    }
}

/// The keys of the leaves of a well-formed object of plain properties are
/// all different, and the segments of each begin with the names above and
/// the name of a property.
pub proof fn lemma_keys(base: Seq<Seq<char>>, node: SchemaNode)
    requires
        plain_names(base),
        well_formed(node),
        plain(node),
    ensures
        leaf_keys(dotted(base), node).no_duplicates(),
        forall|k: int|
            0 <= k < leaf_keys(dotted(base), node).len() ==> below_some(
                #[trigger] leaf_keys(dotted(base), node)[k],
                base,
                node,
                0,
            ),
    decreases node, node.properties@.len() + 2,
{
    lemma_keys_from(base, node, 0);
}

/// The same for the properties from place `from` on.
pub proof fn lemma_keys_from(base: Seq<Seq<char>>, node: SchemaNode, from: int)
    requires
        0 <= from,
        plain_names(base),
        well_formed(node),
        plain_from(node, from),
    ensures
        leaf_keys_from(dotted(base), node, from).no_duplicates(),
        forall|k: int|
            0 <= k < leaf_keys_from(dotted(base), node, from).len() ==> below_some(
                #[trigger] leaf_keys_from(dotted(base), node, from)[k],
                base,
                node,
                from,
            ),
    decreases node, node.properties@.len() - from + 1,
{
    if from < node.properties@.len() {
        let here = leaf_keys_at(dotted(base), node, from);
        let later = leaf_keys_from(dotted(base), node, from + 1);
        lemma_keys_at(base, node, from);
        lemma_keys_from(base, node, from + 1);
        assert forall|a: int, b: int| 0 <= a < here.len() && 0 <= b < later.len() implies here[a]
            != later[b] by {
            assert(below_some(later[b], base, node, from + 1));
            let j = choose|j: int| from + 1 <= j && #[trigger] below_property(later[b], base, node, j);
            assert(below_property(here[a], base, node, from));
            assert(distinct_names(node));
            assert(node.properties@[from].name@ != node.properties@[j].name@);
        }
        lemma_no_dup_in_concat(here, later);
        let keys = here + later;
        assert forall|k: int| 0 <= k < keys.len() implies below_some(
            #[trigger] keys[k],
            base,
            node,
            from,
        ) by {
            if k < here.len() {
                assert(keys[k] == here[k]);
                assert(below_property(here[k], base, node, from));
            } else {
                let key = later[k - here.len()];
                assert(keys[k] == key);
                assert(below_some(key, base, node, from + 1));
                let j = choose|j: int| from + 1 <= j && #[trigger] below_property(key, base, node, j);
                assert(from <= j && below_property(keys[k], base, node, j));
            }
        }
    }
}

/// The table of a well-formed object of plain properties has as many rows as
/// the schema has leaves, and the keys of its rows are the keys of the
/// leaves: none is missing, none is added, none stands twice.
pub proof fn lemma_plain_row_count(root: SchemaNode, rows: Rows)
    requires
        well_formed(root),
        plain(root),
        flat_table_of(root, rows),
    ensures
        rows.len() == leaf_count(root),
        row_keys(rows).to_set() == leaf_keys(Seq::empty(), root).to_set(),
        row_keys(rows).no_duplicates(),
        leaf_keys(Seq::empty(), root).no_duplicates(),
{
    let keys = leaf_keys(Seq::empty(), root);
    let held = row_keys(rows);
    assert(plain_names(Seq::<Seq<char>>::empty()));
    assert(dotted(Seq::empty()) == Seq::<char>::empty());
    lemma_keys(Seq::empty(), root);
    assert(held.no_duplicates()) by {
        assert(distinct_rows(rows));
        assert forall|i: int, j: int| 0 <= i < held.len() && 0 <= j < held.len() && i != j implies held[i]
            != held[j] by {
            if i < j {
                assert(rows[i].key != rows[j].key);
            } else {
                assert(rows[j].key != rows[i].key);
            }
        }
    }
    assert forall|key: Seq<char>| held.to_set().contains(key) <==> keys.to_set().contains(key) by {
        lemma_first_index(held, key);
        if held.contains(key) {
            let at = choose|at: int| 0 <= at < held.len() && held[at] == key;
            assert(has_row(rows, key));
            assert(leaf_at(root, key));
            let slot = choose|slot: LeafSlot| #[trigger] is_leaf(root, slot) && slot.key == key;
            lemma_leaf_has_key(Seq::empty(), Seq::empty(), root, 0, slot);
        }
        if keys.contains(key) {
            let slot = lemma_key_has_leaf(Seq::empty(), Seq::empty(), root, 0, key);
            assert(is_leaf(root, slot));
            assert(leaf_at(root, key));
            assert(has_row(rows, key));
            assert(held[row_position(rows, key)] == key);
        }
    }
    assert(held.to_set() =~= keys.to_set());
    held.unique_seq_to_set();
    keys.unique_seq_to_set();
}

} // verus!
