//! From a schema to a table and back to a document.
//!
//! Of a schema in which every property is required, has a plain name and is
//! either a leaf or an object of such properties, the table holds one row for
//! each leaf, at the names on the way to it joined by the separator, and the
//! rebuilt document holds for each leaf a value at those names, and nothing
//! else.  A name is plain where it is not empty, holds no separator and does
//! not end in the array marker: a property named `a.b` stands at the key of a
//! property `b` below a property `a`, and below a property with the empty
//! name at the top the keys lose a segment.

use crate::composite_objects::{has_row, reconstruct, row_keys, row_position, Rows};
use crate::first_index::{lemma_first_index, lemma_first_index_is};
use crate::flatten_model::{
    fills, finds, finds_from, finds_through, flat_table_of, has_fault, is_leaf, leaf_at, sound,
    lemma_found_along_required, row_of_leaf, Finding, LeafSlot, Step,
};
use crate::json::Entries;
use crate::path_key::{child_key, find_char, is_array_segment, separator, split_segments};
use crate::reconstruct_laws::{
    comparable, get_path, is_object, is_prefix, lemma_reconstruct_separate, on_way, plain_path,
    row_path, separate,
};
use crate::schema::{
    distinct_names, lemma_well_formed_below, well_formed, SchemaNode, SchemaRef, SynthesisError,
};
use vstd::prelude::*;

verus! {

/// Whether a name can stand as a segment of its own: it is not empty, holds
/// no separator and does not end in the array marker.
pub open spec fn plain_name(name: Seq<char>) -> bool {
    &&& name.len() > 0
    &&& forall|i: int| 0 <= i < name.len() ==> name[i] != separator()
    &&& !is_array_segment(name)
}

/// Whether all the names are plain.
pub open spec fn plain_names(names: Seq<Seq<char>>) -> bool {
    forall|i: int| 0 <= i < names.len() ==> plain_name(#[trigger] names[i])
}

/// The key that stands below `prefix` after the names: each name in turn is
/// joined to the key so far.
pub open spec fn extend(prefix: Seq<char>, names: Seq<Seq<char>>) -> Seq<char>
    decreases names.len(),
{
    if names.len() == 0 {
        prefix
    } else {
        extend(child_key(prefix, names[0]), names.skip(1))
    }
}

/// A name without separator is one segment.
pub proof fn lemma_split_plain(name: Seq<char>)
    requires
        forall|i: int| 0 <= i < name.len() ==> name[i] != separator(),
    ensures
        split_segments(name) == seq![name],
{
    lemma_first_index_is(name, separator(), name.len() as int);
}

/// A key, a separator and a name without separator: the segments of the key
/// and the name.
pub proof fn lemma_split_joined(key: Seq<char>, name: Seq<char>)
    requires
        forall|i: int| 0 <= i < name.len() ==> name[i] != separator(),
    ensures
        split_segments(key + seq![separator()] + name) == split_segments(key) + seq![name],
    decreases key.len(),
{
    let whole = key + seq![separator()] + name;
    let dot = find_char(key, separator());
    lemma_first_index(key, separator());
    if dot < key.len() {
        assert forall|i: int| 0 <= i < dot implies whole[i] != separator() by {
            assert(whole[i] == key[i]);
        }
        assert(whole[dot] == key[dot]);
        lemma_first_index_is(whole, separator(), dot);
        assert(whole.take(dot) =~= key.take(dot));
        assert(whole.skip(dot + 1) =~= key.skip(dot + 1) + seq![separator()] + name);
        lemma_split_joined(key.skip(dot + 1), name);
        assert(split_segments(whole) =~= split_segments(key) + seq![name]);
    } else {
        assert forall|i: int| 0 <= i < key.len() implies whole[i] != separator() by {
            assert(whole[i] == key[i]);
        }
        assert(whole[key.len() as int] == separator());
        lemma_first_index_is(whole, separator(), key.len() as int);
        assert(whole.take(key.len() as int) =~= key);
        assert(whole.skip(key.len() as int + 1) =~= name);
        lemma_split_plain(name);
        assert(split_segments(key) == seq![key]);
        assert(split_segments(whole) =~= split_segments(key) + seq![name]);
    }
}

/// The segments of a key that was extended by plain names: those of the key
/// it started from, and the names.
pub proof fn lemma_split_extended(prefix: Seq<char>, names: Seq<Seq<char>>)
    requires
        prefix.len() > 0,
        plain_names(names),
    ensures
        split_segments(extend(prefix, names)) == split_segments(prefix) + names,
        extend(prefix, names).len() > 0,
    decreases names.len(),
{
    if names.len() == 0 {
        assert(split_segments(prefix) + names =~= split_segments(prefix));
    } else {
        let next = child_key(prefix, names[0]);
        assert(plain_name(names[0]));
        lemma_split_joined(prefix, names[0]);
        assert(plain_names(names.skip(1))) by {
            assert forall|i: int| 0 <= i < names.skip(1).len() implies plain_name(
                #[trigger] names.skip(1)[i],
            ) by {
                assert(names.skip(1)[i] == names[i + 1]);
            }
        }
        lemma_split_extended(next, names.skip(1));
        assert(split_segments(prefix) + seq![names[0]] + names.skip(1) =~= split_segments(prefix)
            + names);
    }
}

/// The segments of the key that plain names give from the empty key are the
/// names.
pub proof fn lemma_split_names(names: Seq<Seq<char>>)
    requires
        names.len() > 0,
        plain_names(names),
    ensures
        split_segments(extend(Seq::empty(), names)) == names,
{
    let first = names[0];
    assert(plain_name(first));
    assert(child_key(Seq::empty(), first) == first);
    assert(plain_names(names.skip(1))) by {
        assert forall|i: int| 0 <= i < names.skip(1).len() implies plain_name(
            #[trigger] names.skip(1)[i],
        ) by {
            assert(names.skip(1)[i] == names[i + 1]);
        }
    }
    lemma_split_extended(first, names.skip(1));
    lemma_split_plain(first);
    assert(seq![first] + names.skip(1) =~= names);
}

/// Whether the schema is an object of plain properties: it has properties,
/// and each of them is plain.
pub open spec fn plain(node: SchemaNode) -> bool
    decreases node, node.properties@.len() + 2,
{
    node.properties@.len() > 0 && plain_from(node, 0)
}

/// Whether the properties from place `from` on are plain.
pub open spec fn plain_from(node: SchemaNode, from: int) -> bool
    decreases node, node.properties@.len() - from + 1,
{
    if 0 <= from < node.properties@.len() {
        plain_property(node, from) && plain_from(node, from + 1)
    } else {
        true
    }
}

/// Whether the property at place `i` is plain: it has a plain name, is
/// required, and its schema has type tags that are scalar, or is itself an
/// object of plain properties.
pub open spec fn plain_property(node: SchemaNode, i: int) -> bool
    decreases node, 0int,
{
    &&& 0 <= i < node.properties@.len()
    &&& plain_name(node.properties@[i].name@)
    &&& node.requires_name(node.properties@[i].name@)
    &&& match node.properties@[i].schema {
        SchemaRef::Object(child) => match child.schema_type {
            Some(tags) => tags.scalar() || plain(child),
            None => false,
        },
        SchemaRef::Unresolved { .. } => false,
    }
}

/// The names of the properties on the way `path` down from the schema.
pub open spec fn names_of(node: SchemaNode, path: Seq<Step>) -> Seq<Seq<char>>
    decreases path.len(),
{
    if path.len() == 0 {
        Seq::empty()
    } else {
        match path[0] {
            Step::Property(i) => if 0 <= i < node.properties@.len() {
                seq![node.properties@[i].name@] + match node.properties@[i].schema {
                    SchemaRef::Object(child) => names_of(child, path.skip(1)),
                    SchemaRef::Unresolved { .. } => Seq::empty(),
                }
            } else {
                Seq::empty()
            },
            Step::Items => Seq::empty(),
        }
    }
}

/// Each property from place `from` on is plain.
pub proof fn lemma_plain_property(node: SchemaNode, from: int, i: int)
    requires
        plain_from(node, from),
        0 <= from <= i < node.properties@.len(),
    ensures
        plain_property(node, i),
    decreases i - from,
{
    if from < i {
        lemma_plain_property(node, from + 1, i);
    }
}

/// The property at or below which a leaf is found.
pub proof fn lemma_found_index(
    prefix: Seq<char>,
    trail: Seq<Step>,
    node: SchemaNode,
    from: int,
    f: Finding,
) -> (i: int)
    requires
        finds_from(prefix, trail, node, from, f),
    ensures
        from <= i < node.properties@.len(),
        finds_through(prefix, trail, node, i, f),
    decreases node.properties@.len() - from,
{
    if finds_through(prefix, trail, node, from, f) {
        from
    } else {
        lemma_found_index(prefix, trail, node, from + 1, f)
    }
}

/// The way of a leaf that is found at or below a property goes on from the
/// trail with the step into that property.
pub proof fn lemma_through_step(
    prefix: Seq<char>,
    trail: Seq<Step>,
    node: SchemaNode,
    i: int,
    slot: LeafSlot,
)
    requires
        finds_through(prefix, trail, node, i, Finding::Leaf(slot)),
    ensures
        trail.len() < slot.path.len(),
        slot.path.take(trail.len() as int + 1) == trail.push(Step::Property(i)),
        slot.path.take(trail.len() as int) == trail,
        slot.path.skip(trail.len() as int)[0] == Step::Property(i),
        slot.path.skip(trail.len() as int).skip(1) == slot.path.skip(trail.len() as int + 1),
{
    let child = node.properties@[i].schema->Object_0;
    let tags = child.schema_type->0;
    let longer = trail.push(Step::Property(i));
    if tags.scalar() {
        assert(slot.path == longer);
        assert(slot.path.take(trail.len() as int + 1) =~= longer);
    } else {
        lemma_found_along_required(child_key(prefix, node.properties@[i].name@), longer, child, slot);
    }
    assert(slot.path.take(trail.len() as int) =~= longer.take(trail.len() as int));
    assert(longer.take(trail.len() as int) =~= trail);
    assert(slot.path[trail.len() as int] == longer[trail.len() as int]);
    assert(slot.path.skip(trail.len() as int).skip(1) =~= slot.path.skip(trail.len() as int + 1));
}

/// A leaf that is found at or below a plain property stands at the key that
/// the names on its way give, and the names are plain.
pub proof fn lemma_leaf_key_through(
    prefix: Seq<char>,
    trail: Seq<Step>,
    node: SchemaNode,
    i: int,
    slot: LeafSlot,
)
    requires
        plain_property(node, i),
        finds_through(prefix, trail, node, i, Finding::Leaf(slot)),
    ensures
        names_of(node, slot.path.skip(trail.len() as int)).len() >= 1,
        names_of(node, slot.path.skip(trail.len() as int))[0] == node.properties@[i].name@,
        plain_names(names_of(node, slot.path.skip(trail.len() as int))),
        slot.key == extend(prefix, names_of(node, slot.path.skip(trail.len() as int))),
    decreases node, 0int,
{
    let name = node.properties@[i].name@;
    let child = node.properties@[i].schema->Object_0;
    let tags = child.schema_type->0;
    let longer = trail.push(Step::Property(i));
    let key = child_key(prefix, name);
    let added = slot.path.skip(trail.len() as int);
    lemma_through_step(prefix, trail, node, i, slot);
    let below = names_of(child, added.skip(1));
    assert(names_of(node, added) == seq![name] + below);
    if tags.scalar() {
        assert(slot.path == longer);
        assert(added.skip(1) =~= Seq::<Step>::empty());
        assert(below =~= Seq::<Seq<char>>::empty());
        assert(names_of(node, added) =~= seq![name]);
        assert(names_of(node, added).skip(1) =~= Seq::<Seq<char>>::empty());
        assert(extend(prefix, names_of(node, added)) == extend(key, Seq::empty()));
    } else {
        lemma_leaf_key(key, longer, child, slot);
        assert(added.skip(1) == slot.path.skip(longer.len() as int));
        assert(names_of(node, added).skip(1) =~= below);
        assert(extend(prefix, names_of(node, added)) == extend(key, below));
    }
    assert forall|k: int| 0 <= k < names_of(node, added).len() implies plain_name(
        #[trigger] names_of(node, added)[k],
    ) by {
        if k > 0 {
            assert(names_of(node, added)[k] == below[k - 1]);
        }
    }
}

/// A leaf of an object of plain properties stands at the key that the names
/// on its way give, and the names are plain.
pub proof fn lemma_leaf_key(prefix: Seq<char>, trail: Seq<Step>, node: SchemaNode, slot: LeafSlot)
    requires
        plain(node),
        finds(prefix, trail, node, Finding::Leaf(slot)),
    ensures
        trail.len() < slot.path.len(),
        names_of(node, slot.path.skip(trail.len() as int)).len() >= 1,
        plain_names(names_of(node, slot.path.skip(trail.len() as int))),
        slot.key == extend(prefix, names_of(node, slot.path.skip(trail.len() as int))),
    decreases node, 1int,
{
    let i = lemma_found_index(prefix, trail, node, 0, Finding::Leaf(slot));
    lemma_plain_property(node, 0, i);
    lemma_through_step(prefix, trail, node, i, slot);
    lemma_leaf_key_through(prefix, trail, node, i, slot);
}

/// Two leaves of an object of plain properties, the names of the first
/// being the beginning of the names of the second, are one leaf.
pub proof fn lemma_one_leaf(
    prefix: Seq<char>,
    trail: Seq<Step>,
    node: SchemaNode,
    first: LeafSlot,
    second: LeafSlot,
)
    requires
        well_formed(node),
        plain(node),
        finds(prefix, trail, node, Finding::Leaf(first)),
        finds(prefix, trail, node, Finding::Leaf(second)),
        is_prefix(
            names_of(node, first.path.skip(trail.len() as int)),
            names_of(node, second.path.skip(trail.len() as int)),
        ),
    ensures
        first == second,
    decreases node,
{
    let i = lemma_found_index(prefix, trail, node, 0, Finding::Leaf(first));
    let j = lemma_found_index(prefix, trail, node, 0, Finding::Leaf(second));
    lemma_plain_property(node, 0, i);
    lemma_plain_property(node, 0, j);
    lemma_leaf_key_through(prefix, trail, node, i, first);
    lemma_leaf_key_through(prefix, trail, node, j, second);
    lemma_through_step(prefix, trail, node, i, first);
    lemma_through_step(prefix, trail, node, j, second);
    let names1 = names_of(node, first.path.skip(trail.len() as int));
    let names2 = names_of(node, second.path.skip(trail.len() as int));
    assert(names2.take(names1.len() as int)[0] == names1[0]);
    assert(node.properties@[i].name@ == node.properties@[j].name@);
    assert(distinct_names(node));
    assert(i == j);
    let name = node.properties@[i].name@;
    let child = node.properties@[i].schema->Object_0;
    let tags = child.schema_type->0;
    let longer = trail.push(Step::Property(i));
    let key = child_key(prefix, name);
    if tags.scalar() {
    } else {
        let rest1 = first.path.skip(trail.len() as int).skip(1);
        let rest2 = second.path.skip(trail.len() as int).skip(1);
        let below1 = names_of(child, rest1);
        let below2 = names_of(child, rest2);
        assert(names1 == seq![name] + below1);
        assert(names2 == seq![name] + below2);
        assert(below1 =~= names1.skip(1));
        assert(below2 =~= names2.skip(1));
        assert(below2.take(below1.len() as int) =~= below1) by {
            assert forall|k: int| 0 <= k < below1.len() implies below2[k] == below1[k] by {
                assert(names2.take(names1.len() as int)[k + 1] == names1[k + 1]);
            }
        }
        assert(rest1 == first.path.skip(longer.len() as int));
        assert(rest2 == second.path.skip(longer.len() as int));
        lemma_well_formed_below(node, 0, i);
        lemma_one_leaf(key, longer, child, first, second);
    }
}

/// An object of plain properties has no fault but an enumeration of a
/// single entry: every reference on the way has its schema, every schema its
/// type tags, and every leaf a placeholder.
pub proof fn lemma_plain_faults(
    prefix: Seq<char>,
    trail: Seq<Step>,
    node: SchemaNode,
    e: SynthesisError,
)
    requires
        plain(node),
        finds(prefix, trail, node, Finding::Fault(e)),
    ensures
        e == SynthesisError::EmptyEnumRange,
    decreases node,
{
    let i = lemma_found_index(prefix, trail, node, 0, Finding::Fault(e));
    lemma_plain_property(node, 0, i);
    let child = node.properties@[i].schema->Object_0;
    let tags = child.schema_type->0;
    if tags.scalar() {
    } else {
        lemma_plain_faults(
            child_key(prefix, node.properties@[i].name@),
            trail.push(Step::Property(i)),
            child,
            e,
        );
    }
}

/// The leaf for which a row of a table holds a value.
pub open spec fn leaf_of_row(root: SchemaNode, rows: Rows, r: int) -> LeafSlot {
    choose|slot: LeafSlot| #[trigger]
        is_leaf(root, slot) && slot.key == rows[r].key && fills(slot, rows[r].value)
}

/// The names on the way to a leaf of the schema.
pub open spec fn leaf_names(root: SchemaNode, slot: LeafSlot) -> Seq<Seq<char>> {
    names_of(root, slot.path)
}

/// Whether the row holds a value for the leaf, and the document holds that
/// value at the names on the way to the leaf.
pub open spec fn leaf_in_document(
    root: SchemaNode,
    rows: Rows,
    doc: Entries,
    slot: LeafSlot,
    r: int,
) -> bool {
    &&& 0 <= r < rows.len()
    &&& rows[r].key == slot.key
    &&& fills(slot, rows[r].value)
    &&& get_path(doc, leaf_names(root, slot)) == Some(rows[r].value.json())
}

/// Whether what the document holds at the end of the way `p` belongs to the
/// leaf: the names of the leaf lead to it or into it, or lead on through it
/// and it is an object.
pub open spec fn belongs_to_leaf(
    root: SchemaNode,
    doc: Entries,
    slot: LeafSlot,
    p: Seq<Seq<char>>,
) -> bool {
    &&& is_leaf(root, slot)
    &&& is_prefix(leaf_names(root, slot), p) || (is_prefix(p, leaf_names(root, slot)) && is_object(
        get_path(doc, p),
    ))
}

/// The key that the names give from the empty key: the names, joined by the
/// separator.
pub open spec fn dotted(names: Seq<Seq<char>>) -> Seq<char> {
    extend(Seq::empty(), names)
}

/// Two leaves of an object of plain properties that stand at one key are one
/// leaf.
pub proof fn lemma_same_key(root: SchemaNode, first: LeafSlot, second: LeafSlot)
    requires
        well_formed(root),
        plain(root),
        is_leaf(root, first),
        is_leaf(root, second),
        first.key == second.key,
    ensures
        first == second,
{
    lemma_leaf_key(Seq::empty(), Seq::empty(), root, first);
    lemma_leaf_key(Seq::empty(), Seq::empty(), root, second);
    assert(first.path.skip(0) =~= first.path);
    assert(second.path.skip(0) =~= second.path);
    let names1 = leaf_names(root, first);
    let names2 = leaf_names(root, second);
    lemma_split_names(names1);
    lemma_split_names(names2);
    assert(names2.take(names1.len() as int) =~= names1);
    lemma_one_leaf(Seq::empty(), Seq::empty(), root, first, second);
}

/// Whether no enumeration that the properties of the schema are synthesized
/// with has a single entry: neither that of the schema nor that of an object
/// below it.
pub open spec fn enum_free(node: SchemaNode) -> bool
    decreases node, node.properties@.len() + 2,
{
    node.enum_values@.len() != 1 && enum_free_from(node, 0)
}

/// The same for the objects below the properties from place `from` on.
pub open spec fn enum_free_from(node: SchemaNode, from: int) -> bool
    decreases node, node.properties@.len() - from + 1,
{
    if 0 <= from < node.properties@.len() {
        &&& match node.properties@[from].schema {
            SchemaRef::Object(child) => child.properties@.len() == 0 || enum_free(child),
            SchemaRef::Unresolved { .. } => true,
        }
        &&& enum_free_from(node, from + 1)
    } else {
        true
    }
}

/// The object below each property from place `from` on.
pub proof fn lemma_enum_free_below(node: SchemaNode, from: int, i: int)
    requires
        enum_free_from(node, from),
        0 <= from <= i < node.properties@.len(),
    ensures
        match node.properties@[i].schema {
            SchemaRef::Object(child) => child.properties@.len() == 0 || enum_free(child),
            SchemaRef::Unresolved { .. } => true,
        },
    decreases i - from,
{
    if from < i {
        lemma_enum_free_below(node, from + 1, i);
    }
}

/// The walk through an object of plain properties without an enumeration of
/// a single entry finds no fault.
pub proof fn lemma_plain_finds_no_fault(
    prefix: Seq<char>,
    trail: Seq<Step>,
    node: SchemaNode,
    e: SynthesisError,
)
    requires
        plain(node),
        enum_free(node),
    ensures
        !finds(prefix, trail, node, Finding::Fault(e)),
    decreases node,
{
    if finds(prefix, trail, node, Finding::Fault(e)) {
        let i = lemma_found_index(prefix, trail, node, 0, Finding::Fault(e));
        lemma_plain_property(node, 0, i);
        lemma_enum_free_below(node, 0, i);
        let child = node.properties@[i].schema->Object_0;
        let tags = child.schema_type->0;
        if !tags.scalar() {
            lemma_plain_finds_no_fault(
                child_key(prefix, node.properties@[i].name@),
                trail.push(Step::Property(i)),
                child,
                e,
            );
        }
    }
}

/// An object of plain properties without an enumeration of a single entry
/// has no fault: flattening it succeeds.
pub proof fn lemma_plain_sound(root: SchemaNode)
    requires
        plain(root),
        enum_free(root),
    ensures
        sound(root),
{
    assert forall|e: SynthesisError| !has_fault(root, e) by {
        lemma_plain_finds_no_fault(Seq::empty(), Seq::empty(), root, e);
    }
}

/// The names on the way to the leaf of a row are the segments of the key of
/// the row.
proof fn lemma_row_names(root: SchemaNode, rows: Rows, r: int, slot: LeafSlot)
    requires
        plain(root),
        0 <= r < rows.len(),
        is_leaf(root, slot),
        slot.key == rows[r].key,
    ensures
        row_path(rows, r) == leaf_names(root, slot),
        plain_path(row_path(rows, r)),
{
    lemma_leaf_key(Seq::empty(), Seq::empty(), root, slot);
    assert(slot.path.skip(0) =~= slot.path);
    let names = leaf_names(root, slot);
    lemma_split_names(names);
    assert forall|i: int| 0 <= i < names.len() implies !is_array_segment(#[trigger] names[i]) by {
        assert(plain_name(names[i]));
    }
}

/// Of a well-formed schema that is an object of plain properties, a table of
/// the schema and the document rebuilt from it hold exactly the leaves of the
/// schema.  Each leaf stands at the key that the names on the way to it give,
/// joined by the separator, and no two leaves stand at one key; so the rows
/// of the table and the leaves correspond one to one, and the ways of the
/// rows are of plain segments, none the beginning of another.  For every
/// leaf a row holds a value that the synthesis can give for it, and the
/// document holds that value at the end of the names of the leaf; and
/// whatever the document holds at the end of a way lies on the way to a leaf
/// or inside the value of one.
pub proof fn lemma_plain_round_trip(root: SchemaNode, rows: Rows)
    requires
        well_formed(root),
        plain(root),
        flat_table_of(root, rows),
    ensures
        separate(rows),
        forall|slot: LeafSlot| #[trigger]
            is_leaf(root, slot) ==> slot.key == dotted(leaf_names(root, slot)),
        forall|first: LeafSlot, second: LeafSlot|
            #![trigger is_leaf(root, first), is_leaf(root, second)]
            is_leaf(root, first) && is_leaf(root, second) && first.key == second.key ==> first
                == second,
        forall|slot: LeafSlot| #[trigger]
            is_leaf(root, slot) ==> exists|r: int|
                leaf_in_document(root, rows, reconstruct(rows), slot, r),
        forall|p: Seq<Seq<char>>|
            (#[trigger] get_path(reconstruct(rows), p)) is Some ==> exists|slot: LeafSlot|
                belongs_to_leaf(root, reconstruct(rows), slot, p),
{
    let doc = reconstruct(rows);
    assert forall|slot: LeafSlot| #[trigger] is_leaf(root, slot) implies slot.key == dotted(
        leaf_names(root, slot),
    ) by {
        lemma_leaf_key(Seq::empty(), Seq::empty(), root, slot);
        assert(slot.path.skip(0) =~= slot.path);
    }
    assert forall|first: LeafSlot, second: LeafSlot|
        #![trigger is_leaf(root, first), is_leaf(root, second)]
        is_leaf(root, first) && is_leaf(root, second) && first.key == second.key implies first
            == second by {
        lemma_same_key(root, first, second);
    }
    assert forall|r: int| 0 <= r < rows.len() implies {
        &&& is_leaf(root, leaf_of_row(root, rows, r))
        &&& leaf_of_row(root, rows, r).key == rows[r].key
        &&& fills(leaf_of_row(root, rows, r), rows[r].value)
        &&& #[trigger] row_path(rows, r) == leaf_names(root, leaf_of_row(root, rows, r))
        &&& plain_path(row_path(rows, r))
    } by {
        assert(row_of_leaf(root, rows[r]));
        lemma_row_names(root, rows, r, leaf_of_row(root, rows, r));
    }
    assert(separate(rows)) by {
        assert forall|i: int, j: int|
            0 <= i < rows.len() && 0 <= j < rows.len() && i != j implies !comparable(
            #[trigger] row_path(rows, i),
            #[trigger] row_path(rows, j),
        ) by {
            let a = leaf_of_row(root, rows, i);
            let b = leaf_of_row(root, rows, j);
            assert(a.path.skip(0) =~= a.path);
            assert(b.path.skip(0) =~= b.path);
            if is_prefix(row_path(rows, i), row_path(rows, j)) {
                lemma_one_leaf(Seq::empty(), Seq::empty(), root, a, b);
            }
            if is_prefix(row_path(rows, j), row_path(rows, i)) {
                lemma_one_leaf(Seq::empty(), Seq::empty(), root, b, a);
            }
            if i < j {
                assert(rows[i].key != rows[j].key);
            } else {
                assert(rows[j].key != rows[i].key);
            }
        }
    }
    lemma_reconstruct_separate(rows);
    assert forall|slot: LeafSlot| #[trigger] is_leaf(root, slot) implies exists|r: int|
        leaf_in_document(root, rows, doc, slot, r) by {
        assert(leaf_at(root, slot.key));
        assert(has_row(rows, slot.key));
        let r = row_position(rows, slot.key);
        lemma_first_index(row_keys(rows), slot.key);
        assert(row_keys(rows)[r] == slot.key);
        assert(rows[r].key == slot.key);
        let other = leaf_of_row(root, rows, r);
        lemma_row_names(root, rows, r, slot);
        assert(slot.path.skip(0) =~= slot.path);
        assert(other.path.skip(0) =~= other.path);
        assert(leaf_names(root, slot) == leaf_names(root, other));
        assert(leaf_names(root, other).take(leaf_names(root, slot).len() as int) =~= leaf_names(
            root,
            slot,
        ));
        lemma_one_leaf(Seq::empty(), Seq::empty(), root, slot, other);
        assert(get_path(doc, row_path(rows, r)) == Some(rows[r].value.json()));
        assert(leaf_in_document(root, rows, doc, slot, r));
    }
    assert forall|p: Seq<Seq<char>>| (#[trigger] get_path(doc, p)) is Some implies exists|
        slot: LeafSlot,
    | belongs_to_leaf(root, doc, slot, p) by {
        let r = choose|r: int| on_way(rows, r, p, get_path(doc, p)->0);
        assert(row_path(rows, r) == leaf_names(root, leaf_of_row(root, rows, r)));
        assert(belongs_to_leaf(root, doc, leaf_of_row(root, rows, r), p));
    }
}

} // verus!
